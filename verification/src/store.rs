//! The engine: what `set`, `get` and `remove` decide, and what recovery and
//! compaction compute. It holds the index and the record count; the bytes of
//! the log stay with the caller, who appends and copies what the engine says.

use crate::codec::{decode, decode_failure, encode_put, encode_remove};
use crate::command::{Command, CommandView};
use crate::error::{DecodeError, EncodeError, KvsStoreError};
use crate::extent::Extent;
use crate::format::{
    encodable, first_record, has_record, lemma_first_record, lemma_record_len, record,
};
use crate::index::{extents, Index};
use crate::laws::{
    lemma_append, lemma_compacted, lemma_frontier_in_log, lemma_put, lemma_read_is_contents,
    lemma_recover_step, lemma_recover_stop, lemma_remove, lemma_restored_valid,
};
use crate::log::{all_encodable, clean, log_of, recovered};
use crate::state::{at, gathered, LogState};
use vstd::prelude::*;
use vstd::slice::slice_subrange;

verus! {

/// What the caller has to do to the files after `set` or `remove`.
pub struct LogUpdate {
    /// The record to append at the end of the active log.
    pub record: Vec<u8>,
    /// Where compaction is due: the extents of the active log, the new
    /// record included, to copy in this order into a new file that then
    /// replaces the active log.
    pub rewrite: Option<Vec<Extent>>,
}

/// The engine's state: the index, the number of records in the active log,
/// and the offset at which the log ends.
pub struct KvStore {
    index: Index,
    commands_cnt: u64,
    end: u64,
    log: Ghost<Seq<u8>>,
}

impl View for KvStore {
    type V = LogState;

    closed spec fn view(&self) -> LogState {
        LogState { log: self.log@, slots: self.index@, commands: self.commands_cnt as nat }
    }
}

impl KvStore {
    /// Whether the offset kept for the end of the log is the log's length,
    /// and the index's hash map is in step with its entries.
    pub closed spec fn in_step(&self) -> bool {
        self.end == self.log@.len() && self.index.hashed()
    }

    /// The invariant of the engine.
    pub open spec fn wf(&self) -> bool {
        self@.valid() && self.in_step()
    }

    /// Recovery: rebuilds the index from the bytes of the active log, read
    /// from offset 0 up to the first place where no record begins. It never
    /// fails; what stands from that place on is left alone.
    pub fn open(log: &[u8]) -> (store: KvStore)
        ensures
            store.wf(),
            store@ == LogState::restored(log@),
            clean(log@) ==> store@.intact(),
    {
        let mut index = Index::new();
        let mut count: u64 = 0;
        let mut pos: usize = 0;
        let ghost mut done = Seq::<CommandView>::empty();
        proof {
            assert(log@.skip(0) =~= log@);
            assert(log@.subrange(0, 0) =~= log_of(done));
            assert(done + recovered(log@) =~= recovered(log@));
        }
        loop
            invariant
                pos <= log.len(),
                recovered(log@) == done + recovered(log@.skip(pos as int)),
                log_of(done) == log@.subrange(0, pos as int),
                all_encodable(done),
                index@ == LogState::replay(done).slots,
                index.wf(),
                count == done.len(),
            ensures
                recovered(log@) == done,
                index@ == LogState::replay(done).slots,
                count == done.len(),
            decreases log.len() - pos,
        {
            assert(log@.skip(pos as int) =~= log@.subrange(pos as int, log.len() as int));
            match decode(slice_subrange(log, pos, log.len())) {
                Ok((command, len)) => {
                    proof {
                        lemma_recover_step(log@, pos as int, done, command@);
                        done = done.push(command@);
                    }
                    let extent = Extent { offset: pos as u64, length: len as u64 };
                    match command {
                        Command::Put { key, value } => {
                            index.insert(key, extent);
                        },
                        Command::Remove { key } => {
                            index.remove(&key);
                        },
                    }
                    count = count + 1;
                    pos = pos + len;
                },
                Err(_) => {
                    proof {
                        lemma_recover_stop(log@, pos as int, done);
                    }
                    break ;
                },
            }
        }
        proof {
            lemma_restored_valid(log@);
        }
        KvStore { index, commands_cnt: count, end: log.len() as u64, log: Ghost(log@) }
    }

    /// The number of live keys.
    pub fn len(&self) -> (n: usize)
        ensures
            n == self@.slots.len(),
    {
        self.index.len()
    }

    /// The number of records counted in the active log.
    pub fn commands_total(&self) -> (n: u64)
        ensures
            n == self@.commands,
    {
        self.commands_cnt
    }

    /// The length that the active log has once the caller has done what the
    /// engine said.
    pub fn log_len(&self) -> (n: u64)
        requires
            self.wf(),
        ensures
            n == self@.log.len(),
    {
        self.end
    }

    /// The compaction check and, where it fires, compaction: the index then
    /// points into the log that holds the live records in their old order, and
    /// the caller gets the old extents to copy.
    fn compact(&mut self) -> (plan: Option<Vec<Extent>>)
        requires
            old(self).wf(),
        ensures
            final(self).wf(),
            final(self)@ == old(self)@.settled(),
            match plan {
                Some(extents_to_copy) => old(self)@.crowded() && extents_to_copy@ == extents(
                    old(self)@.slots,
                ),
                None => !old(self)@.crowded(),
            },
    {
        let live: u64 = self.index.len() as u64;
        if self.commands_cnt - live > live {
            proof {
                lemma_compacted(self@);
                lemma_frontier_in_log(self@);
            }
            let packing = self.index.repack();
            self.commands_cnt = live;
            self.end = packing.1;
            self.log = Ghost(gathered(old(self).log@, old(self).index@));
            Some(packing.0)
        } else {
            None
        }
    }

    /// Appends the record of a command that the state admits, then runs the
    /// compaction check.
    fn append(&mut self, command: Command, record: Vec<u8>) -> (update: LogUpdate)
        requires
            old(self).wf(),
            old(self)@.admits(command@),
            record@ == crate::format::record(command@),
        ensures
            final(self).wf(),
            final(self)@ == old(self)@.append(command@).settled(),
            update.record@ == crate::format::record(command@),
            match update.rewrite {
                Some(plan) => old(self)@.append(command@).crowded() && plan@ == extents(
                    old(self)@.append(command@).slots,
                ),
                None => !old(self)@.append(command@).crowded(),
            },
    {
        proof {
            lemma_record_len(command@);
            lemma_append(self@, command@);
            lemma_frontier_in_log(self@);
        }
        let extent = Extent { offset: self.end, length: record.len() as u64 };
        match command {
            Command::Put { key, value } => {
                self.index.insert(key, extent);
            },
            Command::Remove { key } => {
                self.index.remove(&key);
            },
        }
        self.commands_cnt = self.commands_cnt + 1;
        self.end = self.end + extent.length;
        self.log = Ghost(self.log@ + record@);
        let rewrite = self.compact();
        LogUpdate { record, rewrite }
    }

    /// Sets the value of a key: encodes the put, maps the key to the extent
    /// that the record takes at the end of the log, counts the record, and
    /// runs the compaction check.
    ///
    /// It fails, and changes nothing, exactly when the put has no record or
    /// the log has no room for it.
    pub fn set(&mut self, key: String, value: String) -> (r: Result<LogUpdate, KvsStoreError>)
        requires
            old(self).wf(),
        ensures
            final(self).wf(),
            final(self)@ == old(self)@.apply(CommandView::Put { key: key@, value: value@ }),
            match r {
                Ok(update) => {
                    &&& old(self)@.admits(CommandView::Put { key: key@, value: value@ })
                    &&& final(self)@ == old(self)@.put(key@, value@)
                    &&& final(self)@.contents() == old(self)@.contents().insert(key@, value@)
                    &&& final(self)@.read(key@) == Some(value@)
                    &&& final(self)@.balanced()
                    &&& old(self)@.intact() ==> final(self)@.intact()
                    &&& update.record@ == record(CommandView::Put { key: key@, value: value@ })
                    &&& match update.rewrite {
                        Some(plan) => {
                            &&& old(self)@.append(
                                CommandView::Put { key: key@, value: value@ },
                            ).crowded()
                            &&& plan@ == extents(
                                old(self)@.append(
                                    CommandView::Put { key: key@, value: value@ },
                                ).slots,
                            )
                        },
                        None => !old(self)@.append(
                            CommandView::Put { key: key@, value: value@ },
                        ).crowded(),
                    }
                },
                Err(e) => {
                    &&& !old(self)@.admits(CommandView::Put { key: key@, value: value@ })
                    &&& final(self)@ == old(self)@
                    &&& e == KvsStoreError::EncodeError(
                        if encodable(CommandView::Put { key: key@, value: value@ }) {
                            EncodeError::LogTooLong
                        } else {
                            EncodeError::RecordTooLong
                        },
                    )
                },
            },
    {
        let record = match encode_put(key.as_str(), value.as_str()) {
            Ok(record) => record,
            Err(e) => {
                return Err(KvsStoreError::EncodeError(e));
            },
        };
        proof {
            lemma_record_len(CommandView::Put { key: key@, value: value@ });
        }
        if record.len() as u64 > u64::MAX - self.end {
            return Err(KvsStoreError::EncodeError(EncodeError::LogTooLong));
        }
        proof {
            lemma_put(self@, key@, value@);
        }
        Ok(self.append(Command::Put { key, value }, record))
    }

    /// Where the value of a key stands: the extent of its latest put record,
    /// or nothing if the key is not live. The bytes of the log at that extent
    /// are the put record of the key with the value that the store holds for
    /// it. The answer depends on the state alone.
    pub fn get(&self, key: String) -> (r: Option<Extent>)
        requires
            self.wf(),
        ensures
            r == self@.get(key@),
            r is Some <==> self@.contents().dom().contains(key@),
            r matches Some(extent) ==> {
                &&& extent.end() <= self@.log.len()
                &&& at(self@.log, extent) == record(
                    CommandView::Put { key: key@, value: self@.contents()[key@] },
                )
                &&& has_record(at(self@.log, extent))
                &&& first_record(at(self@.log, extent)) == (CommandView::Put {
                    key: key@,
                    value: self@.contents()[key@],
                })
            },
    {
        proof {
            lemma_read_is_contents(self@, key@);
        }
        self.index.get(&key)
    }

    /// The value in the bytes that were read at an extent which `get` gave:
    /// the value of the put record they begin with, nothing for a remove
    /// record, and an error where they begin with no record.
    pub fn value_in(bytes: &[u8]) -> (r: Result<Option<String>, KvsStoreError>)
        ensures
            match r {
                Ok(Some(value)) => has_record(bytes@) && first_record(bytes@) is Put
                    && first_record(bytes@)->value == value@,
                Ok(None) => has_record(bytes@) && first_record(bytes@) is Remove,
                Err(e) => !has_record(bytes@) && e == KvsStoreError::DecodeError(
                    decode_failure(bytes@),
                ),
            },
    {
        match decode(bytes) {
            Ok((command, _)) => {
                proof {
                    lemma_first_record(bytes@, command@);
                }
                match command {
                    Command::Put { key, value } => Ok(Some(value)),
                    Command::Remove { key } => Ok(None),
                }
            },
            Err(e) => Err(KvsStoreError::DecodeError(e)),
        }
    }

    /// Removes a key: encodes the remove, erases the key from the index,
    /// counts the record, and runs the compaction check.
    ///
    /// A key that is not live gives `KeyNotExist` with that key, and nothing
    /// is to be written. Otherwise it fails, and changes nothing, exactly when
    /// the remove has no record or the log has no room for it.
    pub fn remove(&mut self, key: String) -> (r: Result<LogUpdate, KvsStoreError>)
        requires
            old(self).wf(),
        ensures
            final(self).wf(),
            final(self)@ == old(self)@.apply(CommandView::Remove { key: key@ }),
            match r {
                Ok(update) => {
                    &&& old(self)@.get(key@) is Some
                    &&& old(self)@.admits(CommandView::Remove { key: key@ })
                    &&& final(self)@ == old(self)@.remove(key@)
                    &&& final(self)@.contents() == old(self)@.contents().remove(key@)
                    &&& final(self)@.get(key@) is None
                    &&& final(self)@.balanced()
                    &&& old(self)@.intact() ==> final(self)@.intact()
                    &&& update.record@ == record(CommandView::Remove { key: key@ })
                    &&& match update.rewrite {
                        Some(plan) => {
                            &&& old(self)@.append(CommandView::Remove { key: key@ }).crowded()
                            &&& plan@ == extents(
                                old(self)@.append(CommandView::Remove { key: key@ }).slots,
                            )
                        },
                        None => !old(self)@.append(CommandView::Remove { key: key@ }).crowded(),
                    }
                },
                Err(KvsStoreError::KeyNotExist(missing)) => {
                    &&& old(self)@.get(key@) is None
                    &&& missing@ == key@
                    &&& final(self)@ == old(self)@
                },
                Err(KvsStoreError::EncodeError(e)) => {
                    &&& old(self)@.get(key@) is Some
                    &&& !old(self)@.admits(CommandView::Remove { key: key@ })
                    &&& final(self)@ == old(self)@
                    &&& e == if encodable(CommandView::Remove { key: key@ }) {
                        EncodeError::LogTooLong
                    } else {
                        EncodeError::RecordTooLong
                    }
                },
                Err(KvsStoreError::DecodeError(_)) => false,
            },
    {
        if !self.index.contains_key(&key) {
            return Err(KvsStoreError::KeyNotExist(key));
        }
        let record = match encode_remove(key.as_str()) {
            Ok(record) => record,
            Err(e) => {
                return Err(KvsStoreError::EncodeError(e));
            },
        };
        proof {
            lemma_record_len(CommandView::Remove { key: key@ });
        }
        if record.len() as u64 > u64::MAX - self.end {
            return Err(KvsStoreError::EncodeError(EncodeError::LogTooLong));
        }
        proof {
            lemma_remove(self@, key@);
        }
        Ok(self.append(Command::Remove { key }, record))
    }
}

} // verus!
