//! The log as a sequence of records, and what recovery reads from its bytes.

use crate::command::CommandView;
use crate::format::{
    encodable, first_record, has_record, lemma_first_record, lemma_record_len, lemma_record_prefix,
    lemma_record_unique, lemma_round_trip, part, record, record_len, starts_with_record,
};
use vstd::prelude::*;

verus! {

/// Whether every command of the sequence has a record.
pub open spec fn all_encodable(commands: Seq<CommandView>) -> bool {
    forall|i: int| 0 <= i < commands.len() ==> encodable(#[trigger] commands[i])
}

/// The log that holds the records of `commands`, one behind the other.
pub open spec fn log_of(commands: Seq<CommandView>) -> Seq<u8>
    decreases commands.len(),
{
    if commands.len() == 0 {
        Seq::empty()
    } else {
        log_of(commands.drop_last()) + record(commands.last())
    }
}

/// The place of the last command of the sequence that mentions the key, if
/// any does.
pub open spec fn last_mention(commands: Seq<CommandView>, key: Seq<char>) -> Option<int>
    decreases commands.len(),
{
    if commands.len() == 0 {
        None
    } else if commands.last().key() == key {
        Some(commands.len() - 1)
    } else {
        last_mention(commands.drop_last(), key)
    }
}

/// The commands that recovery reads from a log: those of the records that
/// follow one another from offset 0, up to the first place where no record
/// begins. What stands from there on is a torn tail and is not read.
pub open spec fn recovered(log: Seq<u8>) -> Seq<CommandView>
    decreases log.len(),
    via recovered_decreases
{
    if has_record(log) {
        seq![first_record(log)] + recovered(log.skip(record_len(first_record(log)) as int))
    } else {
        Seq::empty()
    }
}

#[via_fn]
proof fn recovered_decreases(log: Seq<u8>) {
    if has_record(log) {
        lemma_record_prefix(log, first_record(log));
    }
}

/// Whether the log is nothing but complete records.
pub open spec fn clean(log: Seq<u8>) -> bool {
    log_of(recovered(log)) == log
}

/// The log of a sequence with one more command is the log of the sequence
/// with that command's record behind it.
pub proof fn lemma_log_of_push(commands: Seq<CommandView>, c: CommandView)
    ensures
        log_of(commands.push(c)) == log_of(commands) + record(c),
{
    assert(commands.push(c).drop_last() =~= commands);
}

/// The log of a sequence begins with the record of its first command.
pub proof fn lemma_log_of_first(commands: Seq<CommandView>)
    requires
        commands.len() > 0,
    ensures
        log_of(commands) == record(commands[0]) + log_of(commands.drop_first()),
    decreases commands.len(),
{
    if commands.len() == 1 {
        assert(commands.drop_last() =~= Seq::<CommandView>::empty());
        assert(commands.drop_first() =~= Seq::<CommandView>::empty());
        assert(log_of(commands) =~= record(commands[0]) + log_of(commands.drop_first()));
    } else {
        let front = commands.drop_last();
        lemma_log_of_first(front);
        assert(front.drop_first() =~= commands.drop_first().drop_last());
        assert(log_of(commands) =~= record(commands[0]) + log_of(commands.drop_first()));
    }
}

/// What recovery reads are commands that have records.
pub proof fn lemma_recovered_encodable(log: Seq<u8>)
    ensures
        all_encodable(recovered(log)),
    decreases log.len(),
{
    if has_record(log) {
        let c = first_record(log);
        lemma_record_prefix(log, c);
        let rest = log.skip(record_len(c) as int);
        lemma_recovered_encodable(rest);
        assert forall|i: int| 0 <= i < recovered(log).len() implies encodable(
            #[trigger] recovered(log)[i],
        ) by {
            if i > 0 {
                assert(recovered(log)[i] == recovered(rest)[i - 1]);
            }
        }
    }
}

/// What recovery reads is what stands at the start of the log.
pub proof fn lemma_recovered_is_prefix(log: Seq<u8>)
    ensures
        log_of(recovered(log)).is_prefix_of(log),
    decreases log.len(),
{
    if has_record(log) {
        let c = first_record(log);
        lemma_record_prefix(log, c);
        let rest = log.skip(record_len(c) as int);
        lemma_recovered_is_prefix(rest);
        lemma_log_of_first(recovered(log));
        assert(recovered(log).drop_first() =~= recovered(rest));
        assert(log_of(recovered(log)) =~= log.subrange(0, log_of(recovered(log)).len() as int));
    } else {
        assert(log_of(recovered(log)) =~= log.subrange(0, 0));
    }
}

/// Recovery reads back the commands whose records were written, whatever
/// stands behind them, as long as no record begins there.
pub proof fn lemma_recover_with_tail(commands: Seq<CommandView>, tail: Seq<u8>)
    requires
        all_encodable(commands),
        !has_record(tail),
    ensures
        recovered(log_of(commands) + tail) == commands,
    decreases commands.len(),
{
    let log = log_of(commands) + tail;
    if commands.len() == 0 {
        assert(log =~= tail);
    } else {
        let c = commands[0];
        let rest = commands.drop_first();
        lemma_log_of_first(commands);
        lemma_record_len(c);
        assert(log =~= record(c) + (log_of(rest) + tail));
        lemma_round_trip(c, log_of(rest) + tail);
        assert(log.skip(record_len(c) as int) =~= log_of(rest) + tail);
        lemma_recover_with_tail(rest, tail);
        assert(recovered(log) =~= commands);
    }
}

/// Recovery reads back exactly the commands whose records make up the log.
pub proof fn lemma_recover_log(commands: Seq<CommandView>)
    requires
        all_encodable(commands),
    ensures
        recovered(log_of(commands)) == commands,
        clean(log_of(commands)),
{
    let none = Seq::<u8>::empty();
    assert(!has_record(none)) by {
        if has_record(none) {
            lemma_record_prefix(none, first_record(none));
        }
    }
    lemma_recover_with_tail(commands, none);
    assert(log_of(commands) + none =~= log_of(commands));
}

/// No record begins in a record that was cut short.
pub proof fn lemma_cut_record(c: CommandView, n: int)
    requires
        encodable(c),
        0 <= n < record_len(c),
    ensures
        !has_record(record(c).take(n)),
{
    let cut = record(c).take(n);
    lemma_record_len(c);
    if has_record(cut) {
        let d = first_record(cut);
        lemma_record_prefix(cut, d);
        assert(record(d).is_prefix_of(record(c))) by {
            assert(record(d) =~= record(c).subrange(0, record(d).len() as int));
        }
        assert(record(c).is_prefix_of(record(c)));
        lemma_record_unique(record(c), c, d);
    }
}

/// A log whose last record was cut short anywhere recovers to the commands
/// before that record.
pub proof fn lemma_torn_tail(commands: Seq<CommandView>, c: CommandView, n: int)
    requires
        all_encodable(commands),
        encodable(c),
        0 <= n < record_len(c),
    ensures
        recovered(log_of(commands) + record(c).take(n)) == commands,
{
    lemma_cut_record(c, n);
    lemma_recover_with_tail(commands, record(c).take(n));
}

/// Appending a record to a clean log keeps it clean, and recovery then reads
/// one command more.
pub proof fn lemma_recover_appended(log: Seq<u8>, c: CommandView)
    requires
        clean(log),
        encodable(c),
    ensures
        recovered(log + record(c)) == recovered(log).push(c),
        clean(log + record(c)),
{
    let commands = recovered(log);
    lemma_recovered_encodable(log);
    lemma_log_of_push(commands, c);
    lemma_recover_log(commands.push(c));
}

/// The log of the first commands of a sequence stands at the start of the
/// log of the sequence, and the record of the next command directly behind it.
pub proof fn lemma_log_of_take(commands: Seq<CommandView>, i: int)
    requires
        0 <= i <= commands.len(),
    ensures
        log_of(commands.take(i)).is_prefix_of(log_of(commands)),
        i < commands.len() ==> log_of(commands.take(i + 1)) == log_of(commands.take(i)) + record(
            commands[i],
        ),
    decreases commands.len(),
{
    if i < commands.len() {
        assert(commands.take(i + 1).drop_last() =~= commands.take(i));
        let front = commands.drop_last();
        assert(front.take(i) =~= commands.take(i));
        lemma_log_of_take(front, i);
        assert(log_of(commands.take(i)) =~= log_of(commands).subrange(
            0,
            log_of(commands.take(i)).len() as int,
        ));
    } else {
        assert(commands.take(i) =~= commands);
        assert(log_of(commands) =~= log_of(commands).subrange(0, log_of(commands).len() as int));
    }
}

/// In the log of a sequence, the record of each command stands behind the
/// log of the commands before it.
pub proof fn lemma_log_of_record(commands: Seq<CommandView>, i: int)
    requires
        0 <= i < commands.len(),
    ensures
        part(log_of(commands), log_of(commands.take(i)).len(), record(commands[i]).len())
            == record(commands[i]),
        log_of(commands.take(i)).len() + record(commands[i]).len() <= log_of(commands).len(),
{
    let whole = log_of(commands);
    let upto = log_of(commands.take(i));
    let next = log_of(commands.take(i + 1));
    lemma_log_of_take(commands, i);
    lemma_log_of_take(commands, i + 1);
    assert(next == upto + record(commands[i]));
    assert(next =~= whole.subrange(0, next.len() as int));
    assert forall|j: int| 0 <= j < record(commands[i]).len() implies part(
        whole,
        upto.len(),
        record(commands[i]).len(),
    )[j] == record(commands[i])[j] by {
        assert(whole.subrange(0, next.len() as int)[upto.len() + j] == next[upto.len() + j]);
    }
    assert(part(whole, upto.len(), record(commands[i]).len()) =~= record(commands[i]));
}

/// Skipping twice is skipping once by the sum.
proof fn lemma_skip_twice(log: Seq<u8>, a: int, b: int)
    requires
        0 <= a,
        0 <= b,
        a + b <= log.len(),
    ensures
        log.skip(a).skip(b) == log.skip(a + b),
{
    assert(log.skip(a).skip(b) =~= log.skip(a + b));
}

/// The start of a log up to an offset, with what follows it, is the start up
/// to the later offset.
proof fn lemma_start_extends(log: Seq<u8>, a: int, b: int)
    requires
        0 <= a,
        0 <= b,
        a + b <= log.len(),
    ensures
        log.subrange(0, a + b) == log.subrange(0, a) + log.skip(a).subrange(0, b),
{
    assert(log.subrange(0, a + b) =~= log.subrange(0, a) + log.skip(a).subrange(0, b));
}

/// A command pushed onto the commands before it stands in front of those
/// behind it.
proof fn lemma_push_then_rest(done: Seq<CommandView>, c: CommandView, rest: Seq<CommandView>)
    ensures
        done.push(c) + rest == done + (seq![c] + rest),
{
    assert(done.push(c) + rest =~= done + (seq![c] + rest));
}

/// One step of reading a log. Where the commands read so far account for the
/// log up to an offset and a record begins there, the commands with that
/// record's command account for the log up to the record's end.
pub proof fn lemma_recovered_step(log: Seq<u8>, at: int, done: Seq<CommandView>, c: CommandView)
    requires
        0 <= at <= log.len(),
        recovered(log) == done + recovered(log.skip(at)),
        log_of(done) == log.subrange(0, at),
        all_encodable(done),
        starts_with_record(log.skip(at), c),
    ensures
        at + record_len(c) <= log.len(),
        recovered(log) == done.push(c) + recovered(log.skip(at + record_len(c))),
        log_of(done.push(c)) == log.subrange(0, at + record_len(c)),
        all_encodable(done.push(c)),
{
    let rest = log.skip(at);
    let len = record_len(c) as int;
    lemma_first_record(rest, c);
    lemma_record_prefix(rest, c);
    lemma_log_of_push(done, c);
    lemma_skip_twice(log, at, len);
    lemma_start_extends(log, at, len);
    lemma_push_then_rest(done, c, recovered(rest.skip(len)));
}

} // verus!
