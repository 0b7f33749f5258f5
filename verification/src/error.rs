use vstd::prelude::*;
use vstd::string::StringExecFns;

verus! {

/// Why a command has no record, or why its record cannot be appended.
#[derive(Clone, Copy, Debug, PartialEq, Eq, Structural)]
pub enum EncodeError {
    /// The record would be longer than its length prefix can state.
    RecordTooLong,
    /// The record would end beyond the last offset that an extent can state.
    LogTooLong,
}

/// Why bytes do not begin with a record.
#[derive(Clone, Copy, Debug, PartialEq, Eq, Structural)]
pub enum DecodeError {
    /// There are no bytes: the log ends at a record boundary.
    EndOfLog,
    /// The bytes stop before the length prefix or the announced length is
    /// complete.
    Truncated,
    /// The announced length is there, but the bytes are no record.
    Malformed,
}

/// What the store's operations fail with.
#[derive(Debug)]
pub enum KvsStoreError {
    /// The command has no record, or the log has no room for it.
    EncodeError(EncodeError),
    /// The bytes read at an extent are no record.
    DecodeError(DecodeError),
    /// `remove` of a key that is not live.
    KeyNotExist(String),
}

/// An error that can say in words what went wrong, for a client to read.
pub trait ErrorMessage {
    /// The words.
    fn message(&self) -> String;
}

impl EncodeError {
    /// What `message` says.
    pub open spec fn text(self) -> Seq<char> {
        match self {
            EncodeError::RecordTooLong => "record too long"@,
            EncodeError::LogTooLong => "log too long"@,
        }
    }

    /// The error in words.
    pub fn message(&self) -> (m: String)
        ensures
            m@ == self.text(),
    {
        match self {
            EncodeError::RecordTooLong => "record too long".to_owned(),
            EncodeError::LogTooLong => "log too long".to_owned(),
        }
    }
}

impl DecodeError {
    /// What `message` says.
    pub open spec fn text(self) -> Seq<char> {
        match self {
            DecodeError::EndOfLog => "end of log"@,
            DecodeError::Truncated => "truncated record"@,
            DecodeError::Malformed => "malformed record"@,
        }
    }

    /// The error in words.
    pub fn message(&self) -> (m: String)
        ensures
            m@ == self.text(),
    {
        match self {
            DecodeError::EndOfLog => "end of log".to_owned(),
            DecodeError::Truncated => "truncated record".to_owned(),
            DecodeError::Malformed => "malformed record".to_owned(),
        }
    }
}

impl KvsStoreError {
    /// What `message` says.
    pub open spec fn text(self) -> Seq<char> {
        match self {
            KvsStoreError::EncodeError(e) => e.text(),
            KvsStoreError::DecodeError(e) => e.text(),
            KvsStoreError::KeyNotExist(key) => "key "@ + key@ + " not exist"@,
        }
    }

    /// The error in words; a missing key is named.
    pub fn message(&self) -> (m: String)
        ensures
            m@ == self.text(),
    {
        match self {
            KvsStoreError::EncodeError(e) => e.message(),
            KvsStoreError::DecodeError(e) => e.message(),
            KvsStoreError::KeyNotExist(key) => {
                let mut m = "key ".to_owned();
                m.append(key.as_str());
                m.append(" not exist");
                m
            },
        }
    }
}

impl ErrorMessage for KvsStoreError {
    /// The error in words, as the method of the same name on the type gives
    /// them.
    fn message(&self) -> (m: String)
        ensures
            m@ == self.text(),
    {
        KvsStoreError::message(self)
    }
}

} // verus!
