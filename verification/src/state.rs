//! The store as a value: the bytes of the active log, the index and the
//! number of records, with the moves that the operations make on them.

use crate::command::CommandView;
use crate::extent::Extent;
use crate::format::{encodable, first_record, has_record, part, record, record_len};
use crate::index::{extents, holds, lookup, packed, slot_of, well_formed, with, without, Slot};
use crate::log::{clean, recovered};
use vstd::prelude::*;

verus! {

/// The bytes of the log that an extent names.
pub open spec fn at(log: Seq<u8>, extent: Extent) -> Seq<u8> {
    part(log, extent.offset as nat, extent.length as nat)
}

/// Whether the entry's extent lies in the log and holds exactly one record,
/// a put of the entry's key.
pub open spec fn live_record(log: Seq<u8>, slot: Slot) -> bool {
    &&& slot.extent.end() <= log.len()
    &&& has_record(at(log, slot.extent))
    &&& first_record(at(log, slot.extent)) is Put
    &&& first_record(at(log, slot.extent))->Put_key == slot.key
    &&& record_len(first_record(at(log, slot.extent))) == slot.extent.length
}

/// The value of the put record at the extent.
pub open spec fn value_at(log: Seq<u8>, extent: Extent) -> Seq<char> {
    first_record(at(log, extent))->value
}

/// The bytes at the entries' extents, one behind the other.
pub open spec fn gathered(log: Seq<u8>, slots: Seq<Slot>) -> Seq<u8>
    decreases slots.len(),
{
    if slots.len() == 0 {
        Seq::empty()
    } else {
        gathered(log, slots.drop_last()) + at(log, slots.last().extent)
    }
}

/// The state of a store.
pub struct LogState {
    /// The bytes of the active log.
    pub log: Seq<u8>,
    /// The index.
    pub slots: Seq<Slot>,
    /// The number of records counted in the active log.
    pub commands: nat,
}

impl LogState {
    /// The store of an empty log.
    pub open spec fn empty() -> LogState {
        LogState { log: Seq::empty(), slots: Seq::empty(), commands: 0 }
    }

    /// The invariant: the index maps a key once, in log order; each extent
    /// holds a put record of its key; there are at least as many records as
    /// live keys; every offset of the log fits an extent.
    pub open spec fn valid(self) -> bool {
        &&& well_formed(self.slots)
        &&& forall|i: int|
            0 <= i < self.slots.len() ==> live_record(self.log, #[trigger] self.slots[i])
        &&& self.slots.len() <= self.commands <= self.log.len()
        &&& self.log.len() <= u64::MAX
    }

    /// The extent that the index gives for a key.
    pub open spec fn get(self, key: Seq<char>) -> Option<Extent> {
        lookup(self.slots, key)
    }

    /// The value that a lookup of the key reads from the log, through the
    /// index.
    pub open spec fn read(self, key: Seq<char>) -> Option<Seq<char>> {
        match lookup(self.slots, key) {
            Some(extent) => if has_record(at(self.log, extent)) && first_record(
                at(self.log, extent),
            ) is Put {
                Some(value_at(self.log, extent))
            } else {
                None
            },
            None => None,
        }
    }

    /// What the store holds: a map from each live key to its value. This is
    /// the reference that the answers of the operations are held to.
    pub open spec fn contents(self) -> Map<Seq<char>, Seq<char>> {
        Map::new(
            |key: Seq<char>| holds(self.slots, key),
            |key: Seq<char>| value_at(self.log, self.slots[slot_of(self.slots, key)].extent),
        )
    }

    /// The extent of a record that is appended now.
    pub open spec fn next_extent(self, c: CommandView) -> Extent {
        Extent { offset: self.log.len() as u64, length: record_len(c) as u64 }
    }

    /// Whether the record of the command can be appended: the command has a
    /// record, and the record ends at an offset that an extent can state.
    pub open spec fn admits(self, c: CommandView) -> bool {
        encodable(c) && self.log.len() + record_len(c) <= u64::MAX
    }

    /// The state after the record of a command was appended: a put maps its
    /// key to the new extent, a remove erases its key.
    pub open spec fn append(self, c: CommandView) -> LogState {
        LogState {
            log: self.log + record(c),
            slots: match c {
                CommandView::Put { key, .. } => with(self.slots, key, self.next_extent(c)),
                CommandView::Remove { key } => without(self.slots, key),
            },
            commands: self.commands + 1,
        }
    }

    /// The compaction check: more than twice as many records as live keys.
    pub open spec fn crowded(self) -> bool {
        self.commands > 2 * self.slots.len()
    }

    /// The state after compaction: the log holds the live records and
    /// nothing else, in their old order; the index points into it; each
    /// record counts once.
    pub open spec fn compacted(self) -> LogState {
        LogState {
            log: gathered(self.log, self.slots),
            slots: packed(self.slots),
            commands: self.slots.len(),
        }
    }

    /// The bound that the compaction check keeps on the record count: at
    /// least the number of live keys, and at most one more than twice that
    /// number, with a store of no live key counted as one of one.
    pub open spec fn balanced(self) -> bool {
        self.slots.len() <= self.commands <= 2 * (if self.slots.len() == 0 {
            1
        } else {
            self.slots.len() as int
        }) + 1
    }

    /// The state after the compaction check and what it leads to.
    pub open spec fn settled(self) -> LogState {
        if self.crowded() {
            self.compacted()
        } else {
            self
        }
    }

    /// The state after `set`.
    pub open spec fn put(self, key: Seq<char>, value: Seq<char>) -> LogState {
        self.append(CommandView::Put { key, value }).settled()
    }

    /// The state after a `remove` of a live key.
    pub open spec fn remove(self, key: Seq<char>) -> LogState {
        self.append(CommandView::Remove { key }).settled()
    }

    /// The state after one operation of a client. A `set` that the state
    /// admits is a put; a `remove` of a live key that the state admits is a
    /// remove; any other operation fails and changes nothing.
    pub open spec fn apply(self, c: CommandView) -> LogState {
        match c {
            CommandView::Put { key, value } => if self.admits(c) {
                self.put(key, value)
            } else {
                self
            },
            CommandView::Remove { key } => if self.get(key) is Some && self.admits(c) {
                self.remove(key)
            } else {
                self
            },
        }
    }

    /// The state after a sequence of operations on a store that was opened
    /// on an empty log.
    pub open spec fn run(operations: Seq<CommandView>) -> LogState
        decreases operations.len(),
    {
        if operations.len() == 0 {
            LogState::empty()
        } else {
            LogState::run(operations.drop_last()).apply(operations.last())
        }
    }

    /// Whether each operation of the sequence is admitted by the state that
    /// the operations before it lead to: each has a record, and the log has
    /// room for it.
    pub open spec fn admitted(operations: Seq<CommandView>) -> bool
        decreases operations.len(),
    {
        operations.len() == 0 || (LogState::admitted(operations.drop_last()) && LogState::run(
            operations.drop_last(),
        ).admits(operations.last()))
    }

    /// The state that the commands lead to from the empty store, compaction
    /// left aside: what recovery computes from their records.
    pub open spec fn replay(commands: Seq<CommandView>) -> LogState
        decreases commands.len(),
    {
        if commands.len() == 0 {
            LogState::empty()
        } else {
            LogState::replay(commands.drop_last()).append(commands.last())
        }
    }

    /// The state of a store that was opened on the log.
    pub open spec fn restored(log: Seq<u8>) -> LogState {
        LogState {
            log,
            slots: LogState::replay(recovered(log)).slots,
            commands: recovered(log).len(),
        }
    }

    /// Whether the log is nothing but complete records and opening it gives
    /// this state.
    pub open spec fn intact(self) -> bool {
        clean(self.log) && self == LogState::restored(self.log)
    }

    /// The live records as commands, in the order of the index.
    pub open spec fn live_commands(self) -> Seq<CommandView> {
        Seq::new(
            self.slots.len(),
            |i: int|
                CommandView::Put {
                    key: self.slots[i].key,
                    value: value_at(self.log, self.slots[i].extent),
                },
        )
    }
}

/// The reference for a sequence of operations: a map in which `set`
/// inserts or overwrites and `remove` deletes.
pub open spec fn reference(operations: Seq<CommandView>) -> Map<Seq<char>, Seq<char>>
    decreases operations.len(),
{
    if operations.len() == 0 {
        Map::empty()
    } else {
        match operations.last() {
            CommandView::Put { key, value } => reference(operations.drop_last()).insert(
                key,
                value,
            ),
            CommandView::Remove { key } => reference(operations.drop_last()).remove(key),
        }
    }
}

} // verus!
