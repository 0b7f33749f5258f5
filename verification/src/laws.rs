//! What holds of the store's states, whatever the operations that led to them.

use crate::command::CommandView;
use crate::extent::Extent;
use crate::format::{
    encodable, first_record, has_record, lemma_first_record, lemma_record_len, lemma_record_prefix,
    record, record_len, starts_with_record,
};
use crate::index::{
    frontier, holds, lemma_packed, lemma_total_length_bound, lemma_total_length_grows, lemma_with,
    lemma_without, lookup, packed, slot_of, total_length, with, without, Slot,
};
use crate::log::{
    all_encodable, clean, last_mention, lemma_log_of_push, lemma_log_of_record, lemma_recover_appended,
    lemma_recover_log, lemma_recovered_encodable, lemma_recovered_is_prefix, lemma_recovered_step,
    lemma_torn_tail, log_of, recovered,
};
use crate::state::{at, gathered, live_record, reference, LogState};
use vstd::prelude::*;

verus! {

/// Bytes appended to a log change nothing at an extent that lies in it.
pub proof fn lemma_at_unchanged(log: Seq<u8>, more: Seq<u8>, extent: Extent)
    requires
        extent.end() <= log.len(),
    ensures
        at(log + more, extent) == at(log, extent),
{
    assert(at(log + more, extent) =~= at(log, extent));
}

/// In a valid state every extent of the index lies in the log.
pub proof fn lemma_frontier_in_log(s: LogState)
    requires
        s.valid(),
    ensures
        frontier(s.slots) <= s.log.len(),
{
    if s.slots.len() > 0 {
        assert(live_record(s.log, s.slots[s.slots.len() - 1]));
    }
}

/// In a valid state, a lookup reads the value that the store holds for the
/// key, and finds nothing exactly for the keys that the store does not hold.
pub proof fn lemma_read_is_contents(s: LogState, key: Seq<char>)
    requires
        s.valid(),
    ensures
        s.contents().dom().contains(key) <==> s.get(key) is Some,
        s.read(key) == if s.contents().dom().contains(key) {
            Some(s.contents()[key])
        } else {
            None
        },
        s.get(key) matches Some(extent) ==> {
            &&& extent.end() <= s.log.len()
            &&& at(s.log, extent) == record(CommandView::Put { key, value: s.contents()[key] })
            &&& has_record(at(s.log, extent))
            &&& first_record(at(s.log, extent)) == (CommandView::Put {
                key,
                value: s.contents()[key],
            })
        },
{
    if holds(s.slots, key) {
        let i = slot_of(s.slots, key);
        let extent = s.slots[i].extent;
        assert(live_record(s.log, s.slots[i]));
        let c = first_record(at(s.log, extent));
        lemma_record_prefix(at(s.log, extent), c);
        assert(at(s.log, extent) =~= record(c));
    }
}

/// Appending the record of a command keeps the state valid and changes what
/// the store holds as the command says: a put inserts or overwrites, a remove
/// deletes, and no other key is touched.
pub proof fn lemma_append(s: LogState, c: CommandView)
    requires
        s.valid(),
        s.admits(c),
    ensures
        s.append(c).valid(),
        s.append(c).contents() == match c {
            CommandView::Put { key, value } => s.contents().insert(key, value),
            CommandView::Remove { key } => s.contents().remove(key),
        },
        c is Put ==> s.append(c).get(c.key()) == Some(s.next_extent(c)),
        forall|other: Seq<char>| other != c.key() ==> s.append(c).get(other) == s.get(other),
{
    let t = s.append(c);
    let e = s.next_extent(c);
    lemma_record_len(c);
    lemma_frontier_in_log(s);
    match c {
        CommandView::Put { key, value } => {
            lemma_with(s.slots, key, e);
            assert(at(t.log, e) =~= record(c));
            assert(record(c).is_prefix_of(record(c)));
            lemma_first_record(at(t.log, e), c);
        },
        CommandView::Remove { key } => {
            lemma_without(s.slots, key);
        },
    }
    assert forall|i: int| 0 <= i < t.slots.len() implies live_record(
        t.log,
        #[trigger] t.slots[i],
    ) by {
        if c is Put && i == t.slots.len() - 1 {
        } else {
            assert(s.slots.contains(t.slots[i]));
            let j = choose|j: int| 0 <= j < s.slots.len() && s.slots[j] == t.slots[i];
            assert(live_record(s.log, s.slots[j]));
            lemma_at_unchanged(s.log, record(c), s.slots[j].extent);
        }
    }
    let expected = match c {
        CommandView::Put { key, value } => s.contents().insert(key, value),
        CommandView::Remove { key } => s.contents().remove(key),
    };
    assert forall|k: Seq<char>| t.contents().dom().contains(k) == expected.dom().contains(k) by {
        if k != c.key() {
            assert(lookup(t.slots, k) == lookup(s.slots, k));
        }
    }
    assert forall|k: Seq<char>| t.contents().dom().contains(k) implies t.contents()[k]
        == expected[k] by {
        if k != c.key() {
            assert(lookup(t.slots, k) == lookup(s.slots, k));
            let j = slot_of(s.slots, k);
            assert(live_record(s.log, s.slots[j]));
            lemma_at_unchanged(s.log, record(c), s.slots[j].extent);
        }
    }
    assert(t.contents() =~= expected);
}

/// Replaying commands whose records fit the log's offsets gives a valid
/// state whose log holds their records and whose count is their number.
pub proof fn lemma_replay(commands: Seq<CommandView>)
    requires
        all_encodable(commands),
        log_of(commands).len() <= u64::MAX,
    ensures
        LogState::replay(commands).valid(),
        LogState::replay(commands).log == log_of(commands),
        LogState::replay(commands).commands == commands.len(),
    decreases commands.len(),
{
    if commands.len() > 0 {
        let front = commands.drop_last();
        lemma_record_len(commands.last());
        lemma_replay(front);
        lemma_append(LogState::replay(front), commands.last());
    }
}

/// Index completeness, and no stale live key. After a replay the index maps
/// a key exactly when the last record that mentions the key is a put, and
/// then to the extent of that record.
pub proof fn lemma_index_points_to_last(commands: Seq<CommandView>, key: Seq<char>)
    requires
        all_encodable(commands),
        log_of(commands).len() <= u64::MAX,
    ensures
        LogState::replay(commands).get(key) == match last_mention(commands, key) {
            Some(i) => if commands[i] is Put {
                Some(
                    Extent {
                        offset: log_of(commands.take(i)).len() as u64,
                        length: record_len(commands[i]) as u64,
                    },
                )
            } else {
                None
            },
            None => None,
        },
        last_mention(commands, key) matches Some(i) ==> 0 <= i < commands.len() && commands[i].key()
            == key,
    decreases commands.len(),
{
    if commands.len() > 0 {
        let front = commands.drop_last();
        let c = commands.last();
        lemma_record_len(c);
        lemma_replay(front);
        lemma_append(LogState::replay(front), c);
        lemma_index_points_to_last(front, key);
        if c.key() == key {
            assert(commands.take(commands.len() - 1) =~= front);
            if c is Remove {
                lemma_replay(commands);
                lemma_read_is_contents(LogState::replay(commands), key);
            }
        } else {
            if last_mention(front, key) is Some {
                let i = last_mention(front, key)->0;
                assert(commands.take(i) =~= front.take(i));
            }
        }
    }
}

/// Replaying one command more is appending its record.
pub proof fn lemma_replay_push(commands: Seq<CommandView>, c: CommandView)
    ensures
        LogState::replay(commands.push(c)) == LogState::replay(commands).append(c),
{
    assert(commands.push(c).drop_last() =~= commands);
}

/// An entry whose record stands in the start of a log has it in the log.
pub proof fn lemma_live_in_longer(start: Seq<u8>, log: Seq<u8>, slot: Slot)
    requires
        start.is_prefix_of(log),
        live_record(start, slot),
    ensures
        live_record(log, slot),
{
    assert(at(log, slot.extent) =~= at(start, slot.extent));
}

/// Opening any log gives a valid state: recovery never fails, whatever the
/// bytes are.
pub proof fn lemma_restored_valid(log: Seq<u8>)
    requires
        log.len() <= u64::MAX,
    ensures
        LogState::restored(log).valid(),
{
    let commands = recovered(log);
    let r = LogState::replay(commands);
    let s = LogState::restored(log);
    lemma_recovered_encodable(log);
    lemma_recovered_is_prefix(log);
    lemma_replay(commands);
    assert(r.log.is_prefix_of(log));
    assert(s.slots == r.slots);
    assert forall|i: int| 0 <= i < s.slots.len() implies live_record(
        log,
        #[trigger] s.slots[i],
    ) by {
        assert(live_record(r.log, r.slots[i]));
        lemma_live_in_longer(r.log, log, r.slots[i]);
    }
}

/// Read-your-writes across a restart: where the log is nothing but complete
/// records and opening it gives the state, the same holds once a record was
/// appended.
pub proof fn lemma_append_intact(s: LogState, c: CommandView)
    requires
        s.valid(),
        s.intact(),
        s.admits(c),
    ensures
        s.append(c).intact(),
{
    let commands = recovered(s.log);
    lemma_recovered_encodable(s.log);
    lemma_replay(commands);
    lemma_recover_appended(s.log, c);
    lemma_replay_push(commands, c);
}

/// The bytes gathered from the first entries of a valid state are the log
/// of the first live commands, as long as the lengths of those entries sum.
pub proof fn lemma_gathered(s: LogState, n: int)
    requires
        s.valid(),
        0 <= n <= s.slots.len(),
    ensures
        gathered(s.log, s.slots.take(n)) == log_of(s.live_commands().take(n)),
        gathered(s.log, s.slots.take(n)).len() == total_length(s.slots.take(n)),
        all_encodable(s.live_commands()),
    decreases n,
{
    let puts = s.live_commands();
    assert forall|i: int| 0 <= i < puts.len() implies encodable(#[trigger] puts[i]) by {
        assert(live_record(s.log, s.slots[i]));
    }
    if n > 0 {
        lemma_gathered(s, n - 1);
        assert(s.slots.take(n).drop_last() =~= s.slots.take(n - 1));
        assert(puts.take(n).drop_last() =~= puts.take(n - 1));
        assert(live_record(s.log, s.slots[n - 1]));
        let bytes = at(s.log, s.slots[n - 1].extent);
        lemma_record_prefix(bytes, puts[n - 1]);
        assert(bytes =~= record(puts[n - 1]));
    } else {
        assert(s.slots.take(0) =~= Seq::<Slot>::empty());
        assert(puts.take(0) =~= Seq::<CommandView>::empty());
    }
}

/// Replaying the first live commands of a valid state gives the first
/// packed entries.
pub proof fn lemma_replay_live(s: LogState, n: int)
    requires
        s.valid(),
        0 <= n <= s.slots.len(),
    ensures
        LogState::replay(s.live_commands().take(n)) == (LogState {
            log: gathered(s.log, s.slots.take(n)),
            slots: packed(s.slots).take(n),
            commands: n as nat,
        }),
    decreases n,
{
    let puts = s.live_commands();
    lemma_frontier_in_log(s);
    lemma_packed(s.slots);
    lemma_gathered(s, n);
    if n > 0 {
        lemma_replay_live(s, n - 1);
        lemma_gathered(s, n - 1);
        let before = LogState::replay(puts.take(n - 1));
        let c = puts[n - 1];
        assert(puts.take(n).drop_last() =~= puts.take(n - 1));
        assert(puts.take(n).last() == c);
        assert(live_record(s.log, s.slots[n - 1]));
        if holds(before.slots, c.key()) {
            let j = slot_of(before.slots, c.key());
            assert(before.slots[j] == packed(s.slots)[j]);
            assert(s.slots[j].key != s.slots[n - 1].key);
        }
        assert(with(before.slots, c.key(), before.next_extent(c)) =~= packed(s.slots).take(n));
    } else {
        assert(puts.take(0) =~= Seq::<CommandView>::empty());
        assert(s.slots.take(0) =~= Seq::<Slot>::empty());
        assert(packed(s.slots).take(0) =~= Seq::<Slot>::empty());
    }
}

/// The state after compaction is the replay of the live commands.
pub proof fn lemma_compacted_is_replay(s: LogState)
    requires
        s.valid(),
    ensures
        s.compacted() == LogState::replay(s.live_commands()),
        s.compacted().log == log_of(s.live_commands()),
        s.compacted().log.len() == total_length(s.slots),
        s.compacted().log.len() <= s.log.len(),
        all_encodable(s.live_commands()),
{
    let n = s.slots.len() as int;
    lemma_frontier_in_log(s);
    lemma_total_length_bound(s.slots);
    lemma_gathered(s, n);
    lemma_replay_live(s, n);
    assert(s.slots.take(n) =~= s.slots);
    assert(s.live_commands().take(n) =~= s.live_commands());
    assert(packed(s.slots).take(n) =~= packed(s.slots));
}

/// After compaction, the extent of each entry holds the record that the
/// entry's old extent held.
pub proof fn lemma_compacted_record(s: LogState, i: int)
    requires
        s.valid(),
        0 <= i < s.slots.len(),
    ensures
        at(s.compacted().log, s.compacted().slots[i].extent) == at(s.log, s.slots[i].extent),
        at(s.log, s.slots[i].extent) == record(s.live_commands()[i]),
        first_record(at(s.log, s.slots[i].extent)) == s.live_commands()[i],
{
    let t = s.compacted();
    let puts = s.live_commands();
    let old_bytes = at(s.log, s.slots[i].extent);
    assert(live_record(s.log, s.slots[i]));
    assert(first_record(old_bytes) == puts[i]);
    lemma_record_prefix(old_bytes, puts[i]);
    assert(old_bytes =~= record(puts[i]));
    lemma_compacted_is_replay(s);
    lemma_gathered(s, i);
    lemma_record_len(puts[i]);
    lemma_log_of_record(puts, i);
    lemma_frontier_in_log(s);
    lemma_total_length_bound(s.slots);
    lemma_total_length_grows(s.slots, i, s.slots.len() as int);
    assert(t.slots[i].extent.offset == total_length(s.slots.take(i)));
    assert(t.slots[i].extent.length == s.slots[i].extent.length);
}

/// Compaction preserves meaning. The new log holds one put record for every
/// key of the index and no other record; the index points into it; each
/// record counts once; the store holds what it held; and opening the new log
/// gives the new state.
pub proof fn lemma_compacted(s: LogState)
    requires
        s.valid(),
    ensures
        s.compacted().valid(),
        s.compacted().intact(),
        s.compacted().contents() == s.contents(),
        s.compacted().log == log_of(s.live_commands()),
        recovered(s.compacted().log) == s.live_commands(),
        s.compacted().commands == s.compacted().slots.len(),
        s.compacted().slots.len() == s.slots.len(),
        s.compacted().log.len() == total_length(s.slots),
        s.compacted().log.len() <= s.log.len(),
{
    let t = s.compacted();
    let puts = s.live_commands();
    lemma_packed(s.slots);
    lemma_compacted_is_replay(s);
    lemma_replay(puts);
    lemma_recover_log(puts);
    assert forall|k: Seq<char>| t.contents().dom().contains(k) implies t.contents()[k]
        == s.contents()[k] by {
        let i = slot_of(s.slots, k);
        assert(slot_of(t.slots, k) == i);
        lemma_compacted_record(s, i);
    }
    assert(t.contents() =~= s.contents());
}

/// After the compaction check there are at least as many records as live
/// keys and at most twice as many; the store holds what it held.
pub proof fn lemma_settled(s: LogState)
    requires
        s.valid(),
    ensures
        s.settled().valid(),
        s.settled().contents() == s.contents(),
        s.settled().slots.len() <= s.settled().commands <= 2 * s.settled().slots.len(),
        s.intact() ==> s.settled().intact(),
{
    lemma_compacted(s);
}

/// One step of recovery. Where the commands read so far account for the log
/// up to an offset and a record begins there, the commands with that record's
/// command account for the log up to the record's end, and replaying them
/// appends the record at that offset.
pub proof fn lemma_recover_step(log: Seq<u8>, at: int, done: Seq<CommandView>, c: CommandView)
    requires
        0 <= at <= log.len() <= u64::MAX,
        recovered(log) == done + recovered(log.skip(at)),
        log_of(done) == log.subrange(0, at),
        all_encodable(done),
        starts_with_record(log.skip(at), c),
    ensures
        at + record_len(c) <= log.len(),
        recovered(log) == done.push(c) + recovered(log.skip(at + record_len(c))),
        log_of(done.push(c)) == log.subrange(0, at + record_len(c)),
        all_encodable(done.push(c)),
        LogState::replay(done).valid(),
        frontier(LogState::replay(done).slots) <= at,
        done.len() <= at,
        LogState::replay(done.push(c)) == LogState::replay(done).append(c),
        LogState::replay(done).next_extent(c) == (Extent {
            offset: at as u64,
            length: record_len(c) as u64,
        }),
{
    lemma_recovered_step(log, at, done, c);
    lemma_replay(done);
    lemma_frontier_in_log(LogState::replay(done));
    lemma_replay_push(done, c);
}

/// The end of recovery. Where no record begins at the offset that the
/// commands read so far account for, they are all that recovery reads.
pub proof fn lemma_recover_stop(log: Seq<u8>, at: int, done: Seq<CommandView>)
    requires
        0 <= at <= log.len(),
        recovered(log) == done + recovered(log.skip(at)),
        !has_record(log.skip(at)),
    ensures
        recovered(log) == done,
{
    assert(done + recovered(log.skip(at)) =~= done);
}

/// The store of an empty log is valid, holds nothing, and is what opening an
/// empty log gives.
pub proof fn lemma_empty()
    ensures
        LogState::empty().valid(),
        LogState::empty().intact(),
        LogState::empty().balanced(),
        LogState::empty().contents() == Map::<Seq<char>, Seq<char>>::empty(),
        LogState::restored(Seq::empty()) == LogState::empty(),
{
    let none = Seq::<CommandView>::empty();
    lemma_recover_log(none);
    assert(log_of(none) =~= Seq::<u8>::empty());
    assert(LogState::empty().contents() =~= Map::<Seq<char>, Seq<char>>::empty());
}

/// `set` against the reference: afterwards the store holds what it held with
/// the key set to the value, a lookup of the key reads the value, the record
/// count is within its bound, and a store that a restart would have left
/// unchanged is still such a store.
pub proof fn lemma_put(s: LogState, key: Seq<char>, value: Seq<char>)
    requires
        s.valid(),
        s.admits(CommandView::Put { key, value }),
    ensures
        s.put(key, value).valid(),
        s.put(key, value).contents() == s.contents().insert(key, value),
        s.put(key, value).read(key) == Some(value),
        s.put(key, value).slots.len() <= s.put(key, value).commands <= 2 * s.put(
            key,
            value,
        ).slots.len(),
        s.put(key, value).balanced(),
        s.intact() ==> s.put(key, value).intact(),
{
    let c = CommandView::Put { key, value };
    lemma_append(s, c);
    if s.intact() {
        lemma_append_intact(s, c);
    }
    lemma_settled(s.append(c));
    lemma_read_is_contents(s.put(key, value), key);
}

/// `remove` of a live key against the reference: afterwards the store holds
/// what it held without the key, a lookup of the key finds nothing, the
/// record count is within its bound, and a store that a restart would have
/// left unchanged is still such a store.
pub proof fn lemma_remove(s: LogState, key: Seq<char>)
    requires
        s.valid(),
        s.admits(CommandView::Remove { key }),
    ensures
        s.remove(key).valid(),
        s.remove(key).contents() == s.contents().remove(key),
        s.remove(key).get(key) is None,
        s.remove(key).read(key) is None,
        s.remove(key).slots.len() <= s.remove(key).commands <= 2 * s.remove(key).slots.len(),
        s.remove(key).balanced(),
        s.intact() ==> s.remove(key).intact(),
{
    let c = CommandView::Remove { key };
    lemma_append(s, c);
    if s.intact() {
        lemma_append_intact(s, c);
    }
    lemma_settled(s.append(c));
    lemma_read_is_contents(s.remove(key), key);
}

/// Of two `set`s of one key, the second wins.
pub proof fn lemma_put_put(s: LogState, key: Seq<char>, first: Seq<char>, second: Seq<char>)
    requires
        s.valid(),
        s.admits(CommandView::Put { key, value: first }),
        s.put(key, first).admits(CommandView::Put { key, value: second }),
    ensures
        s.put(key, first).put(key, second).read(key) == Some(second),
        s.put(key, first).put(key, second).contents() == s.contents().insert(key, second),
{
    lemma_put(s, key, first);
    lemma_put(s.put(key, first), key, second);
    assert(s.contents().insert(key, first).insert(key, second) =~= s.contents().insert(
        key,
        second,
    ));
}

/// After `set` and `remove` of one key, a lookup of the key finds nothing,
/// and a second `remove` meets a key that is not live.
pub proof fn lemma_put_remove(s: LogState, key: Seq<char>, value: Seq<char>)
    requires
        s.valid(),
        s.admits(CommandView::Put { key, value }),
        s.put(key, value).admits(CommandView::Remove { key }),
    ensures
        s.put(key, value).get(key) is Some,
        s.put(key, value).remove(key).read(key) is None,
        s.put(key, value).remove(key).get(key) is None,
        s.put(key, value).remove(key).contents() == s.contents().remove(key),
{
    lemma_put(s, key, value);
    lemma_read_is_contents(s.put(key, value), key);
    lemma_remove(s.put(key, value), key);
    assert(s.contents().insert(key, value).remove(key) =~= s.contents().remove(key));
}

/// A crash in the middle of an append loses that record and nothing else: a
/// log of complete records with a cut record behind it opens to the index,
/// the count and the contents that the log without the cut record opens to.
pub proof fn lemma_torn_append(log: Seq<u8>, c: CommandView, n: int)
    requires
        clean(log),
        log.len() + n <= u64::MAX,
        encodable(c),
        0 <= n < record_len(c),
    ensures
        recovered(log + record(c).take(n)) == recovered(log),
        LogState::restored(log + record(c).take(n)).valid(),
        LogState::restored(log + record(c).take(n)).slots == LogState::restored(log).slots,
        LogState::restored(log + record(c).take(n)).commands == LogState::restored(log).commands,
        LogState::restored(log + record(c).take(n)).contents() == LogState::restored(
            log,
        ).contents(),
{
    let cut = record(c).take(n);
    let before = LogState::restored(log);
    let after = LogState::restored(log + cut);
    lemma_record_len(c);
    lemma_recovered_encodable(log);
    lemma_torn_tail(recovered(log), c, n);
    lemma_restored_valid(log);
    lemma_restored_valid(log + cut);
    assert forall|k: Seq<char>| after.contents().dom().contains(k) implies after.contents()[k]
        == before.contents()[k] by {
        let i = slot_of(before.slots, k);
        assert(live_record(log, before.slots[i]));
        lemma_at_unchanged(log, cut, before.slots[i].extent);
    }
    assert(after.contents() =~= before.contents());
}

/// The store against the reference, for every sequence of operations that
/// the store admits. After the sequence the store is valid and holds what the
/// reference holds: the value last set for every key that was set and not
/// removed since. The record count is within its bound, and closing the store
/// and opening it on its log gives the same state.
pub proof fn lemma_run(operations: Seq<CommandView>)
    requires
        LogState::admitted(operations),
    ensures
        LogState::run(operations).valid(),
        LogState::run(operations).contents() == reference(operations),
        LogState::run(operations).balanced(),
        LogState::run(operations).intact(),
    decreases operations.len(),
{
    if operations.len() == 0 {
        lemma_empty();
    } else {
        let before = LogState::run(operations.drop_last());
        lemma_run(operations.drop_last());
        match operations.last() {
            CommandView::Put { key, value } => {
                lemma_put(before, key, value);
            },
            CommandView::Remove { key } => {
                lemma_read_is_contents(before, key);
                if before.get(key) is Some {
                    lemma_remove(before, key);
                } else {
                    assert(before.contents().remove(key) =~= before.contents());
                }
            },
        }
    }
}

} // verus!
