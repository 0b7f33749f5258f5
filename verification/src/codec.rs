//! Encoding a command as a record, and decoding the record that bytes begin
//! with.

use crate::command::{Command, CommandView};
use crate::error::{DecodeError, EncodeError};
use crate::format::{
    closing, encodable, has_record, key_name, le32, le32_value, lemma_put_frame_holds_put,
    lemma_put_layout, lemma_record_prefix, lemma_remove_frame_holds_remove, lemma_remove_layout,
    part, put_frame, put_head, put_mid, put_tag, record, record_len, remove_frame, remove_head,
    remove_tag, starts_with_record, value_name, MAX_RECORD,
};
use crate::text::string_from_utf8;
use vstd::prelude::*;
use vstd::slice::{slice_subrange, slice_to_vec};
use vstd::utf8::*;

verus! {

/// Appends the four little-endian bytes of `n`.
fn push_le32(buf: &mut Vec<u8>, n: u32)
    ensures
        final(buf)@ == old(buf)@ + le32(n as nat),
{
    reveal(le32);
    buf.push((n % 256) as u8);
    buf.push(((n / 256) % 256) as u8);
    buf.push(((n / 65536) % 256) as u8);
    buf.push(((n / 16777216) % 256) as u8);
    assert(buf@ =~= old(buf)@ + le32(n as nat));
}

/// Appends `bytes`.
pub(crate) fn push_all(buf: &mut Vec<u8>, bytes: &[u8])
    ensures
        final(buf)@ == old(buf)@ + bytes@,
{
    let mut i: usize = 0;
    while i < bytes.len()
        invariant
            i <= bytes.len(),
            buf@ == old(buf)@ + bytes@.subrange(0, i as int),
        decreases bytes.len() - i,
    {
        buf.push(bytes[i]);
        i += 1;
        assert(buf@ =~= old(buf)@ + bytes@.subrange(0, i as int));
    }
    assert(bytes@.subrange(0, i as int) =~= bytes@);
}

/// The number that the four bytes at `at` state.
fn read_le32(bytes: &[u8], at: usize) -> (n: u32)
    requires
        at + 4 <= bytes.len(),
    ensures
        n == le32_value(part(bytes@, at as nat, 4)),
{
    let b0: u32 = bytes[at] as u32;
    let b1: u32 = bytes[at + 1] as u32;
    let b2: u32 = bytes[at + 2] as u32;
    let b3: u32 = bytes[at + 3] as u32;
    b0 + 256 * b1 + 65536 * b2 + 16777216 * b3
}

/// Whether `pattern` stands at offset `at`.
fn matches_at(bytes: &[u8], at: usize, pattern: &[u8]) -> (r: bool)
    requires
        at + pattern.len() <= bytes.len(),
    ensures
        r == (part(bytes@, at as nat, pattern@.len()) == pattern@),
{
    let ghost found = part(bytes@, at as nat, pattern@.len());
    let mut i: usize = 0;
    while i < pattern.len()
        invariant
            i <= pattern.len(),
            at + pattern.len() <= bytes.len(),
            found == part(bytes@, at as nat, pattern@.len()),
            forall|j: int| 0 <= j < i ==> found[j] == pattern@[j],
        decreases pattern.len() - i,
    {
        if bytes[at + i] != pattern[i] {
            assert(found[i as int] != pattern@[i as int]);
            return false;
        }
        i += 1;
    }
    assert(found =~= pattern@);
    true
}

/// The text that the `len` bytes at `at` encode, if they are UTF-8.
fn text_at(bytes: &[u8], at: usize, len: usize) -> (r: Option<String>)
    requires
        at + len <= bytes.len(),
    ensures
        r is Some <==> valid_utf8(part(bytes@, at as nat, len as nat)),
        r matches Some(s) ==> encode_utf8(s@) == part(bytes@, at as nat, len as nat),
{
    match string_from_utf8(slice_to_vec(slice_subrange(bytes, at, at + len))) {
        Ok(s) => Some(s),
        Err(_) => None,
    }
}

/// The fixed bytes in front of the key of a put.
fn put_head_bytes(key_len: u32, value_len: u32) -> (head: Vec<u8>)
    requires
        37 + key_len + value_len <= MAX_RECORD,
    ensures
        head@ == put_head(key_len as nat, value_len as nat),
{
    let tag: [u8; 5] = [3, 0x53, 0x65, 0x74, 0];
    let name: [u8; 5] = [2, 0x6b, 0x65, 0x79, 0];
    let mut head: Vec<u8> = Vec::new();
    push_le32(&mut head, 37 + key_len + value_len);
    push_all(&mut head, &tag);
    push_le32(&mut head, 27 + key_len + value_len);
    push_all(&mut head, &name);
    push_le32(&mut head, key_len + 1);
    assert(tag@ =~= seq![3u8] + put_tag() + seq![0u8]);
    assert(name@ =~= seq![2u8] + key_name() + seq![0u8]);
    assert(head@ =~= put_head(key_len as nat, value_len as nat));
    head
}

/// The fixed bytes between the key and the value of a put.
fn put_mid_bytes(value_len: u32) -> (mid: Vec<u8>)
    requires
        value_len < MAX_RECORD,
    ensures
        mid@ == put_mid(value_len as nat),
{
    let name: [u8; 8] = [0, 2, 0x76, 0x61, 0x6c, 0x75, 0x65, 0];
    let mut mid: Vec<u8> = Vec::new();
    push_all(&mut mid, &name);
    push_le32(&mut mid, value_len + 1);
    assert(name@ =~= seq![0u8, 2u8] + value_name() + seq![0u8]);
    assert(mid@ =~= put_mid(value_len as nat));
    mid
}

/// The fixed bytes in front of the key of a remove.
fn remove_head_bytes(key_len: u32) -> (head: Vec<u8>)
    requires
        28 + key_len <= MAX_RECORD,
    ensures
        head@ == remove_head(key_len as nat),
{
    let tag: [u8; 8] = [3, 0x52, 0x65, 0x6d, 0x6f, 0x76, 0x65, 0];
    let name: [u8; 5] = [2, 0x6b, 0x65, 0x79, 0];
    let mut head: Vec<u8> = Vec::new();
    push_le32(&mut head, 28 + key_len);
    push_all(&mut head, &tag);
    push_le32(&mut head, 15 + key_len);
    push_all(&mut head, &name);
    push_le32(&mut head, key_len + 1);
    assert(tag@ =~= seq![3u8] + remove_tag() + seq![0u8]);
    assert(name@ =~= seq![2u8] + key_name() + seq![0u8]);
    assert(head@ =~= remove_head(key_len as nat));
    head
}

/// The record of a put with the given key and value.
pub fn encode_put(key: &str, value: &str) -> (r: Result<Vec<u8>, EncodeError>)
    ensures
        match r {
            Ok(bytes) => {
                &&& encodable(CommandView::Put { key: key@, value: value@ })
                &&& bytes@ == record(CommandView::Put { key: key@, value: value@ })
            },
            Err(e) => {
                &&& !encodable(CommandView::Put { key: key@, value: value@ })
                &&& e == EncodeError::RecordTooLong
            },
        },
{
    let key_bytes = key.as_bytes();
    let value_bytes = value.as_bytes();
    let limit: usize = (MAX_RECORD - 37) as usize;
    if key_bytes.len() > limit || value_bytes.len() > limit - key_bytes.len() {
        return Err(EncodeError::RecordTooLong);
    }
    let key_len: u32 = key_bytes.len() as u32;
    let value_len: u32 = value_bytes.len() as u32;
    let zeros: [u8; 3] = [0, 0, 0];
    let mut bytes = put_head_bytes(key_len, value_len);
    push_all(&mut bytes, key_bytes);
    let mid = put_mid_bytes(value_len);
    push_all(&mut bytes, mid.as_slice());
    push_all(&mut bytes, value_bytes);
    push_all(&mut bytes, &zeros);
    proof {
        lemma_put_layout(key_bytes@, value_bytes@);
        assert(zeros@ =~= closing());
    }
    Ok(bytes)
}

/// The record of a remove of the given key.
pub fn encode_remove(key: &str) -> (r: Result<Vec<u8>, EncodeError>)
    ensures
        match r {
            Ok(bytes) => {
                &&& encodable(CommandView::Remove { key: key@ })
                &&& bytes@ == record(CommandView::Remove { key: key@ })
            },
            Err(e) => {
                &&& !encodable(CommandView::Remove { key: key@ })
                &&& e == EncodeError::RecordTooLong
            },
        },
{
    let key_bytes = key.as_bytes();
    let limit: usize = (MAX_RECORD - 28) as usize;
    if key_bytes.len() > limit {
        return Err(EncodeError::RecordTooLong);
    }
    let key_len: u32 = key_bytes.len() as u32;
    let zeros: [u8; 3] = [0, 0, 0];
    let mut bytes = remove_head_bytes(key_len);
    push_all(&mut bytes, key_bytes);
    push_all(&mut bytes, &zeros);
    proof {
        lemma_remove_layout(key_bytes@);
        assert(zeros@ =~= closing());
    }
    Ok(bytes)
}

/// The record of a command. It fails exactly when the record would be longer
/// than its length prefix can state.
pub fn encode(command: &Command) -> (r: Result<Vec<u8>, EncodeError>)
    ensures
        match r {
            Ok(bytes) => encodable(command@) && bytes@ == record(command@),
            Err(e) => !encodable(command@) && e == EncodeError::RecordTooLong,
        },
{
    match command {
        Command::Put { key, value } => encode_put(key.as_str(), value.as_str()),
        Command::Remove { key } => encode_remove(key.as_str()),
    }
}

/// Why bytes that begin with no record do not.
pub open spec fn decode_failure(bytes: Seq<u8>) -> DecodeError {
    if bytes.len() == 0 {
        DecodeError::EndOfLog
    } else if bytes.len() < 4 {
        DecodeError::Truncated
    } else if 28 <= le32_value(part(bytes, 0, 4)) <= MAX_RECORD && le32_value(part(bytes, 0, 4))
        > bytes.len() {
        DecodeError::Truncated
    } else {
        DecodeError::Malformed
    }
}

/// Whether the fixed parts of a put with these lengths stand in `bytes`.
fn in_put_frame(bytes: &[u8], key_len: u32, value_len: u32) -> (r: bool)
    requires
        37 + key_len + value_len <= MAX_RECORD,
        37 + key_len + value_len <= bytes.len(),
    ensures
        r == put_frame(bytes@, key_len as nat, value_len as nat),
{
    let zeros: [u8; 3] = [0, 0, 0];
    let head = put_head_bytes(key_len, value_len);
    let mid = put_mid_bytes(value_len);
    let k: usize = key_len as usize;
    let v: usize = value_len as usize;
    proof {
        lemma_put_layout(
            Seq::new(key_len as nat, |i: int| 0u8),
            Seq::new(value_len as nat, |i: int| 0u8),
        );
        assert(zeros@ =~= closing());
    }
    matches_at(bytes, 0, head.as_slice()) && matches_at(bytes, 22 + k, mid.as_slice())
        && matches_at(bytes, 34 + k + v, &zeros)
}

/// Whether the fixed parts of a remove with this key length stand in `bytes`.
fn in_remove_frame(bytes: &[u8], key_len: u32) -> (r: bool)
    requires
        28 + key_len <= MAX_RECORD,
        28 + key_len <= bytes.len(),
    ensures
        r == remove_frame(bytes@, key_len as nat),
{
    let zeros: [u8; 3] = [0, 0, 0];
    let head = remove_head_bytes(key_len);
    let k: usize = key_len as usize;
    proof {
        lemma_remove_layout(Seq::new(key_len as nat, |i: int| 0u8));
        assert(zeros@ =~= closing());
    }
    matches_at(bytes, 0, head.as_slice()) && matches_at(bytes, 25 + k, &zeros)
}

/// The put that `bytes` begin with, if they begin with one.
fn put_at(bytes: &[u8], total: u32) -> (r: Option<Command>)
    requires
        4 <= bytes.len(),
        total == le32_value(part(bytes@, 0, 4)),
        28 <= total <= MAX_RECORD,
        total <= bytes.len(),
    ensures
        r matches Some(c) ==> starts_with_record(bytes@, c@) && record_len(c@) == total,
        r is None ==> forall|c: CommandView|
            c is Put ==> !#[trigger] starts_with_record(bytes@, c),
{
    proof {
        assert forall|c: CommandView| c is Put && #[trigger] starts_with_record(bytes@, c) implies {
            let key_len = encode_utf8(c->Put_key).len();
            let value_len = encode_utf8(c->value).len();
            &&& total == 37 + key_len + value_len
            &&& le32_value(part(bytes@, 18, 4)) == key_len + 1
            &&& put_frame(bytes@, key_len, value_len)
            &&& valid_utf8(part(bytes@, 22, key_len))
            &&& valid_utf8(part(bytes@, 34 + key_len, value_len))
        } by {
            broadcast use encode_utf8_valid_utf8;

            lemma_record_prefix(bytes@, c);
        }
    }
    if total < 37 {
        return None;
    }
    let key_field = read_le32(bytes, 18);
    if key_field < 1 || key_field > total - 36 {
        return None;
    }
    let key_len: u32 = key_field - 1;
    let value_len: u32 = total - 37 - key_len;
    if !in_put_frame(bytes, key_len, value_len) {
        return None;
    }
    let k: usize = key_len as usize;
    let v: usize = value_len as usize;
    match (text_at(bytes, 22, k), text_at(bytes, 34 + k, v)) {
        (Some(key), Some(value)) => {
            proof {
                lemma_put_frame_holds_put(bytes@, key_len as nat, value_len as nat);
                assert(record(CommandView::Put { key: key@, value: value@ }).is_prefix_of(bytes@));
            }
            Some(Command::Put { key, value })
        },
        _ => None,
    }
}

/// The remove that `bytes` begin with, if they begin with one.
fn remove_at(bytes: &[u8], total: u32) -> (r: Option<Command>)
    requires
        4 <= bytes.len(),
        total == le32_value(part(bytes@, 0, 4)),
        28 <= total <= MAX_RECORD,
        total <= bytes.len(),
    ensures
        r matches Some(c) ==> starts_with_record(bytes@, c@) && record_len(c@) == total,
        r is None ==> forall|c: CommandView|
            c is Remove ==> !#[trigger] starts_with_record(bytes@, c),
{
    proof {
        assert forall|c: CommandView|
            c is Remove && #[trigger] starts_with_record(bytes@, c) implies {
            let key_len = encode_utf8(c->Remove_key).len();
            &&& total == 28 + key_len
            &&& le32_value(part(bytes@, 21, 4)) == key_len + 1
            &&& remove_frame(bytes@, key_len)
            &&& valid_utf8(part(bytes@, 25, key_len))
        } by {
            broadcast use encode_utf8_valid_utf8;

            lemma_record_prefix(bytes@, c);
        }
    }
    let key_field = read_le32(bytes, 21);
    if key_field < 1 || key_field - 1 != total - 28 {
        return None;
    }
    let key_len: u32 = key_field - 1;
    if !in_remove_frame(bytes, key_len) {
        return None;
    }
    match text_at(bytes, 25, key_len as usize) {
        Some(key) => {
            proof {
                lemma_remove_frame_holds_remove(bytes@, key_len as nat);
                assert(record(CommandView::Remove { key: key@ }).is_prefix_of(bytes@));
            }
            Some(Command::Remove { key })
        },
        None => None,
    }
}

/// Decodes the record that `bytes` begin with, and says how long it is.
///
/// It succeeds exactly when the bytes begin with the record of some command;
/// that command is the only one. Bytes behind the record are not read. No
/// bytes at all give `EndOfLog`, so that the end of a log at a record boundary
/// is told from a record that was cut short.
pub fn decode(bytes: &[u8]) -> (r: Result<(Command, usize), DecodeError>)
    ensures
        match r {
            Ok((command, len)) => starts_with_record(bytes@, command@) && len == record_len(
                command@,
            ),
            Err(e) => !has_record(bytes@) && e == decode_failure(bytes@),
        },
{
    proof {
        assert forall|c: CommandView| starts_with_record(bytes@, c) implies 28 <= record_len(c)
            <= bytes@.len() && le32_value(part(bytes@, 0, 4)) == record_len(c) && record_len(c)
            <= MAX_RECORD by {
            lemma_record_prefix(bytes@, c);
        }
    }
    if bytes.len() == 0 {
        return Err(DecodeError::EndOfLog);
    }
    if bytes.len() < 4 {
        return Err(DecodeError::Truncated);
    }
    let total = read_le32(bytes, 0);
    if total < 28 || total > MAX_RECORD {
        return Err(DecodeError::Malformed);
    }
    if total as usize > bytes.len() {
        return Err(DecodeError::Truncated);
    }
    if let Some(command) = put_at(bytes, total) {
        return Ok((command, total as usize));
    }
    if let Some(command) = remove_at(bytes, total) {
        return Ok((command, total as usize));
    }
    proof {
        assert forall|c: CommandView| !starts_with_record(bytes@, c) by {
            assert(c is Put || c is Remove);
        }
    }
    Err(DecodeError::Malformed)
}

} // verus!
