//! The byte layout of a record.
//!
//! A record is one length-prefixed document. It starts with its own total
//! length as a little-endian 32-bit number and ends with a zero byte. Its single
//! element is named after the command and holds a nested document with the
//! text fields `key` and, for a put, `value`. A text field carries the length of
//! its UTF-8 bytes plus one, the bytes, and a zero byte.

use crate::command::CommandView;
use vstd::prelude::*;
use vstd::utf8::*;

verus! {

/// The largest total length that a record's length prefix can state.
pub const MAX_RECORD: u32 = 0x7fff_ffff;

/// The four little-endian bytes of `n`.
#[verifier::opaque]
pub open spec fn le32(n: nat) -> Seq<u8> {
    seq![
        (n % 256) as u8,
        ((n / 256) % 256) as u8,
        ((n / 65536) % 256) as u8,
        ((n / 16777216) % 256) as u8,
    ]
}

/// The number that the first four bytes of `b` state in little-endian order.
pub open spec fn le32_value(b: Seq<u8>) -> int
    recommends
        b.len() >= 4,
{
    b[0] + 256 * b[1] + 65536 * b[2] + 16777216 * b[3]
}

/// The `len` bytes of `bytes` that begin at offset `at`.
pub open spec fn part(bytes: Seq<u8>, at: nat, len: nat) -> Seq<u8> {
    bytes.subrange(at as int, (at + len) as int)
}

/// The element name of a put: the ASCII bytes of `Set`.
pub open spec fn put_tag() -> Seq<u8> {
    seq![0x53u8, 0x65u8, 0x74u8]
}

/// The element name of a remove: the ASCII bytes of `Remove`.
pub open spec fn remove_tag() -> Seq<u8> {
    seq![0x52u8, 0x65u8, 0x6du8, 0x6fu8, 0x76u8, 0x65u8]
}

/// The field name `key` in ASCII.
pub open spec fn key_name() -> Seq<u8> {
    seq![0x6bu8, 0x65u8, 0x79u8]
}

/// The field name `value` in ASCII.
pub open spec fn value_name() -> Seq<u8> {
    seq![0x76u8, 0x61u8, 0x6cu8, 0x75u8, 0x65u8]
}

/// A text element: type byte 2, the name, a zero byte, then the text with its
/// length (counting the closing zero byte) in front and a zero byte behind.
pub open spec fn text_element(name: Seq<u8>, text: Seq<u8>) -> Seq<u8> {
    seq![2u8] + name + seq![0u8] + le32(text.len() + 1) + text + seq![0u8]
}

/// A document: its total length, its elements, a zero byte.
pub open spec fn document(elements: Seq<u8>) -> Seq<u8> {
    le32(elements.len() + 5) + elements + seq![0u8]
}

/// A document element: type byte 3, the name, a zero byte, the nested document.
pub open spec fn document_element(name: Seq<u8>, fields: Seq<u8>) -> Seq<u8> {
    seq![3u8] + name + seq![0u8] + document(fields)
}

/// The record of a put, over the UTF-8 bytes of key and value.
pub open spec fn put_bytes(key: Seq<u8>, value: Seq<u8>) -> Seq<u8> {
    document(
        document_element(
            put_tag(),
            text_element(key_name(), key) + text_element(value_name(), value),
        ),
    )
}

/// The record of a remove, over the UTF-8 bytes of the key.
pub open spec fn remove_bytes(key: Seq<u8>) -> Seq<u8> {
    document(document_element(remove_tag(), text_element(key_name(), key)))
}

/// The record that encodes a command.
pub open spec fn record(c: CommandView) -> Seq<u8> {
    match c {
        CommandView::Put { key, value } => put_bytes(encode_utf8(key), encode_utf8(value)),
        CommandView::Remove { key } => remove_bytes(encode_utf8(key)),
    }
}

/// The length of the record that encodes a command.
pub open spec fn record_len(c: CommandView) -> nat {
    match c {
        CommandView::Put { key, value } => 37 + encode_utf8(key).len() + encode_utf8(value).len(),
        CommandView::Remove { key } => 28 + encode_utf8(key).len(),
    }
}

/// Whether the command has a record: its length must fit the length prefix.
pub open spec fn encodable(c: CommandView) -> bool {
    record_len(c) <= MAX_RECORD
}

/// Whether `bytes` begins with the record of `c`.
pub open spec fn starts_with_record(bytes: Seq<u8>, c: CommandView) -> bool {
    encodable(c) && record(c).is_prefix_of(bytes)
}

/// Whether `bytes` begins with a record at all.
pub open spec fn has_record(bytes: Seq<u8>) -> bool {
    exists|c: CommandView| starts_with_record(bytes, c)
}

/// The command whose record `bytes` begins with. No two commands qualify
/// (`lemma_record_unique`); without a leading record the value is arbitrary.
pub open spec fn first_record(bytes: Seq<u8>) -> CommandView
    recommends
        has_record(bytes),
{
    choose|c: CommandView| starts_with_record(bytes, c)
}

/// The fixed bytes in front of the key of a put.
pub open spec fn put_head(key_len: nat, value_len: nat) -> Seq<u8> {
    le32(37 + key_len + value_len) + seq![3u8] + put_tag() + seq![0u8] + le32(
        27 + key_len + value_len,
    ) + seq![2u8] + key_name() + seq![0u8] + le32(key_len + 1)
}

/// The fixed bytes between the key and the value of a put.
pub open spec fn put_mid(value_len: nat) -> Seq<u8> {
    seq![0u8, 2u8] + value_name() + seq![0u8] + le32(value_len + 1)
}

/// The fixed bytes in front of the key of a remove.
pub open spec fn remove_head(key_len: nat) -> Seq<u8> {
    le32(28 + key_len) + seq![3u8] + remove_tag() + seq![0u8] + le32(15 + key_len) + seq![2u8]
        + key_name() + seq![0u8] + le32(key_len + 1)
}

/// The three zero bytes that close the last text field, the nested document
/// and the record.
pub open spec fn closing() -> Seq<u8> {
    seq![0u8, 0u8, 0u8]
}

/// `le32` gives four bytes.
pub proof fn lemma_le32_len(n: nat)
    ensures
        le32(n).len() == 4,
{
    reveal(le32);
}

/// `le32_value` undoes `le32` on every number of 32 bits.
pub proof fn lemma_le32_value(n: nat)
    requires
        n < 0x1_0000_0000,
    ensures
        le32(n).len() == 4,
        le32_value(le32(n)) == n,
{
    reveal(le32);
    let m = n as int;
    let b0 = m % 256;
    let q1 = m / 256;
    let b1 = q1 % 256;
    let q2 = m / 65536;
    let b2 = q2 % 256;
    let q3 = m / 16777216;
    assert(q2 == q1 / 256);
    assert(q3 == q2 / 256);
    assert(q3 < 256);
    assert(m == b0 + 256 * q1);
    assert(q1 == b1 + 256 * q2);
    assert(q2 == b2 + 256 * q3);
    assert(le32(n)[0] == b0);
    assert(le32(n)[1] == b1);
    assert(le32(n)[2] == b2);
    assert(le32(n)[3] == q3);
}

/// A put is its head, the key, the middle, the value and the closing bytes.
pub proof fn lemma_put_layout(key: Seq<u8>, value: Seq<u8>)
    ensures
        put_bytes(key, value) == put_head(key.len(), value.len()) + key + put_mid(
            value.len(),
        ) + value + closing(),
        put_bytes(key, value).len() == 37 + key.len() + value.len(),
        put_head(key.len(), value.len()).len() == 22,
        put_mid(value.len()).len() == 12,
{
    lemma_le32_len(37 + key.len() + value.len());
    lemma_le32_len(27 + key.len() + value.len());
    lemma_le32_len(key.len() + 1);
    lemma_le32_len(value.len() + 1);
    let fields = text_element(key_name(), key) + text_element(value_name(), value);
    assert(text_element(key_name(), key).len() == 10 + key.len());
    assert(text_element(value_name(), value).len() == 12 + value.len());
    assert(fields.len() == 22 + key.len() + value.len());
    assert(document(fields).len() == 27 + key.len() + value.len());
    assert(document_element(put_tag(), fields).len() == 32 + key.len() + value.len());
    assert(put_head(key.len(), value.len()).len() == 22);
    assert(put_mid(value.len()).len() == 12);
    assert(put_bytes(key, value) =~= put_head(key.len(), value.len()) + key
        + put_mid(value.len()) + value + closing());
}

/// A remove is its head, the key and the closing bytes.
pub proof fn lemma_remove_layout(key: Seq<u8>)
    ensures
        remove_bytes(key) == remove_head(key.len()) + key + closing(),
        remove_bytes(key).len() == 28 + key.len(),
        remove_head(key.len()).len() == 25,
{
    lemma_le32_len(28 + key.len());
    lemma_le32_len(15 + key.len());
    lemma_le32_len(key.len() + 1);
    let fields = text_element(key_name(), key);
    assert(fields.len() == 10 + key.len());
    assert(document(fields).len() == 15 + key.len());
    assert(document_element(remove_tag(), fields).len() == 23 + key.len());
    assert(remove_head(key.len()).len() == 25);
    assert(remove_bytes(key) =~= remove_head(key.len()) + key + closing());
}

/// A record is as long as `record_len` says.
pub proof fn lemma_record_len(c: CommandView)
    ensures
        record(c).len() == record_len(c),
        record_len(c) >= 28,
{
    match c {
        CommandView::Put { key, value } => {
            lemma_put_layout(encode_utf8(key), encode_utf8(value));
        },
        CommandView::Remove { key } => {
            lemma_remove_layout(encode_utf8(key));
        },
    }
}

/// Whether `bytes` holds the fixed parts of a put whose key and value have
/// the given lengths, each at its place.
pub open spec fn put_frame(bytes: Seq<u8>, key_len: nat, value_len: nat) -> bool {
    &&& 37 + key_len + value_len <= bytes.len()
    &&& part(bytes, 0, 22) == put_head(key_len, value_len)
    &&& part(bytes, 22 + key_len, 12) == put_mid(value_len)
    &&& part(bytes, 34 + key_len + value_len, 3) == closing()
}

/// Whether `bytes` holds the fixed parts of a remove whose key has the given
/// length, each at its place.
pub open spec fn remove_frame(bytes: Seq<u8>, key_len: nat) -> bool {
    &&& 28 + key_len <= bytes.len()
    &&& part(bytes, 0, 25) == remove_head(key_len)
    &&& part(bytes, 25 + key_len, 3) == closing()
}

/// Bytes in the frame of a put begin with the put of what stands between
/// the fixed parts.
pub proof fn lemma_put_frame_holds_put(bytes: Seq<u8>, key_len: nat, value_len: nat)
    requires
        put_frame(bytes, key_len, value_len),
    ensures
        put_bytes(part(bytes, 22, key_len), part(bytes, 34 + key_len, value_len)) == part(
            bytes,
            0,
            37 + key_len + value_len,
        ),
{
    let key = part(bytes, 22, key_len);
    let value = part(bytes, 34 + key_len, value_len);
    lemma_put_layout(key, value);
    assert(part(bytes, 0, 37 + key_len + value_len) =~= part(bytes, 0, 22) + key
        + part(bytes, 22 + key_len, 12) + value + part(bytes, 34 + key_len + value_len, 3));
}

/// Bytes in the frame of a remove begin with the remove of what stands
/// between the fixed parts.
pub proof fn lemma_remove_frame_holds_remove(bytes: Seq<u8>, key_len: nat)
    requires
        remove_frame(bytes, key_len),
    ensures
        remove_bytes(part(bytes, 25, key_len)) == part(bytes, 0, 28 + key_len),
{
    let key = part(bytes, 25, key_len);
    lemma_remove_layout(key);
    assert(part(bytes, 0, 28 + key_len) =~= part(bytes, 0, 25) + key + part(
        bytes,
        25 + key_len,
        3,
    ));
}

/// Where bytes begin with `x + y + z`, `y` stands behind the first `x.len()` bytes.
pub proof fn lemma_part_of_prefix(bytes: Seq<u8>, x: Seq<u8>, y: Seq<u8>, z: Seq<u8>)
    requires
        (x + y + z).is_prefix_of(bytes),
    ensures
        part(bytes, x.len(), y.len()) == y,
{
    let whole = x + y + z;
    assert forall|i: int| 0 <= i < y.len() implies part(bytes, x.len(), y.len())[i] == y[i] by {
        assert(bytes.subrange(0, whole.len() as int)[x.len() + i] == whole[x.len() + i]);
    }
    assert(part(bytes, x.len(), y.len()) =~= y);
}

/// Bytes that begin with a put are in its frame, with key and value in
/// between; the two lengths can be read off the first and the fifth number.
pub proof fn lemma_put_prefix(bytes: Seq<u8>, key: Seq<u8>, value: Seq<u8>)
    requires
        put_bytes(key, value).is_prefix_of(bytes),
        37 + key.len() + value.len() <= MAX_RECORD,
    ensures
        put_frame(bytes, key.len(), value.len()),
        part(bytes, 22, key.len()) == key,
        part(bytes, 34 + key.len(), value.len()) == value,
        le32_value(part(bytes, 0, 4)) == 37 + key.len() + value.len(),
        le32_value(part(bytes, 18, 4)) == key.len() + 1,
        bytes[5] == 0x53u8,
{
    lemma_put_layout(key, value);
    let head = put_head(key.len(), value.len());
    let mid = put_mid(value.len());
    let whole = put_bytes(key, value);
    let e = Seq::<u8>::empty();
    assert(whole =~= e + head + (key + mid + value + closing()));
    lemma_part_of_prefix(bytes, e, head, key + mid + value + closing());
    assert(whole =~= head + key + (mid + value + closing()));
    lemma_part_of_prefix(bytes, head, key, mid + value + closing());
    assert(whole =~= (head + key) + mid + (value + closing()));
    lemma_part_of_prefix(bytes, head + key, mid, value + closing());
    assert(whole =~= (head + key + mid) + value + closing());
    lemma_part_of_prefix(bytes, head + key + mid, value, closing());
    assert(whole =~= (head + key + mid + value) + closing() + e);
    lemma_part_of_prefix(bytes, head + key + mid + value, closing(), e);
    lemma_le32_len(37 + key.len() + value.len());
    lemma_le32_len(27 + key.len() + value.len());
    lemma_le32_len(key.len() + 1);
    lemma_le32_value(37 + key.len() + value.len());
    lemma_le32_value(key.len() + 1);
    assert(part(bytes, 0, 4) =~= part(head, 0, 4));
    assert(part(head, 0, 4) =~= le32(37 + key.len() + value.len()));
    assert(part(bytes, 18, 4) =~= part(head, 18, 4));
    assert(part(head, 18, 4) =~= le32(key.len() + 1));
    assert(bytes[5] == part(bytes, 0, 22)[5]);
    assert(head[5] == 0x53u8);
}

/// Bytes that begin with a remove are in its frame, with the key in between;
/// its length can be read off the third number.
pub proof fn lemma_remove_prefix(bytes: Seq<u8>, key: Seq<u8>)
    requires
        remove_bytes(key).is_prefix_of(bytes),
        28 + key.len() <= MAX_RECORD,
    ensures
        remove_frame(bytes, key.len()),
        part(bytes, 25, key.len()) == key,
        le32_value(part(bytes, 0, 4)) == 28 + key.len(),
        le32_value(part(bytes, 21, 4)) == key.len() + 1,
        bytes[5] == 0x52u8,
{
    lemma_remove_layout(key);
    let head = remove_head(key.len());
    let whole = remove_bytes(key);
    let e = Seq::<u8>::empty();
    assert(whole =~= e + head + (key + closing()));
    lemma_part_of_prefix(bytes, e, head, key + closing());
    assert(whole =~= head + key + closing());
    lemma_part_of_prefix(bytes, head, key, closing());
    assert(whole =~= (head + key) + closing() + e);
    lemma_part_of_prefix(bytes, head + key, closing(), e);
    lemma_le32_len(28 + key.len());
    lemma_le32_len(15 + key.len());
    lemma_le32_len(key.len() + 1);
    lemma_le32_value(28 + key.len());
    lemma_le32_value(key.len() + 1);
    assert(part(bytes, 0, 4) =~= part(head, 0, 4));
    assert(part(head, 0, 4) =~= le32(28 + key.len()));
    assert(part(bytes, 21, 4) =~= part(head, 21, 4));
    assert(part(head, 21, 4) =~= le32(key.len() + 1));
    assert(bytes[5] == part(bytes, 0, 25)[5]);
    assert(head[5] == 0x52u8);
}

/// What bytes that begin with the record of a command look like.
pub proof fn lemma_record_prefix(bytes: Seq<u8>, c: CommandView)
    requires
        starts_with_record(bytes, c),
    ensures
        le32_value(part(bytes, 0, 4)) == record_len(c),
        28 <= record_len(c) <= bytes.len(),
        part(bytes, 0, record_len(c)) == record(c),
        match c {
            CommandView::Put { key, value } => {
                &&& put_frame(bytes, encode_utf8(key).len(), encode_utf8(value).len())
                &&& part(bytes, 22, encode_utf8(key).len()) == encode_utf8(key)
                &&& part(bytes, 34 + encode_utf8(key).len(), encode_utf8(value).len())
                    == encode_utf8(value)
                &&& le32_value(part(bytes, 18, 4)) == encode_utf8(key).len() + 1
                &&& bytes[5] == 0x53u8
            },
            CommandView::Remove { key } => {
                &&& remove_frame(bytes, encode_utf8(key).len())
                &&& part(bytes, 25, encode_utf8(key).len()) == encode_utf8(key)
                &&& le32_value(part(bytes, 21, 4)) == encode_utf8(key).len() + 1
                &&& bytes[5] == 0x52u8
            },
        },
{
    lemma_record_len(c);
    match c {
        CommandView::Put { key, value } => {
            lemma_put_prefix(bytes, encode_utf8(key), encode_utf8(value));
        },
        CommandView::Remove { key } => {
            lemma_remove_prefix(bytes, encode_utf8(key));
        },
    }
}

/// No byte sequence begins with the records of two different commands: the
/// records are prefix-free and `record` is injective.
pub proof fn lemma_record_unique(bytes: Seq<u8>, c1: CommandView, c2: CommandView)
    requires
        starts_with_record(bytes, c1),
        starts_with_record(bytes, c2),
    ensures
        c1 == c2,
{
    broadcast use encode_utf8_decode_utf8;

    lemma_record_prefix(bytes, c1);
    lemma_record_prefix(bytes, c2);
    match (c1, c2) {
        (CommandView::Put { key: k1, value: v1 }, CommandView::Put { key: k2, value: v2 }) => {
            assert(encode_utf8(k1).len() == encode_utf8(k2).len());
            assert(encode_utf8(v1).len() == encode_utf8(v2).len());
            assert(encode_utf8(k1) == encode_utf8(k2));
            assert(encode_utf8(v1) == encode_utf8(v2));
            assert(decode_utf8(encode_utf8(k1)) == k1);
            assert(decode_utf8(encode_utf8(k2)) == k2);
            assert(decode_utf8(encode_utf8(v1)) == v1);
            assert(decode_utf8(encode_utf8(v2)) == v2);
        },
        (CommandView::Remove { key: k1 }, CommandView::Remove { key: k2 }) => {
            assert(encode_utf8(k1).len() == encode_utf8(k2).len());
            assert(encode_utf8(k1) == encode_utf8(k2));
            assert(decode_utf8(encode_utf8(k1)) == k1);
            assert(decode_utf8(encode_utf8(k2)) == k2);
        },
        _ => {},
    }
}

/// Bytes that begin with the record of `c` have `c` as their first record.
pub proof fn lemma_first_record(bytes: Seq<u8>, c: CommandView)
    requires
        starts_with_record(bytes, c),
    ensures
        has_record(bytes),
        first_record(bytes) == c,
{
    lemma_record_unique(bytes, c, first_record(bytes));
}

/// Decoding undoes encoding, whatever follows the record: the record of an
/// encodable command, with any bytes behind it, has that command as its
/// first record.
pub proof fn lemma_round_trip(c: CommandView, rest: Seq<u8>)
    requires
        encodable(c),
    ensures
        has_record(record(c) + rest),
        first_record(record(c) + rest) == c,
{
    assert(record(c).is_prefix_of(record(c) + rest));
    lemma_first_record(record(c) + rest, c);
}

} // verus!
