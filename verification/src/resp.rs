//! Values of the RESP wire format and their encoding as bytes.
//!
//! A simple string is `+`, the text and CR LF; an error is `-`, the text and
//! CR LF; an integer is `:`, its decimal digits and CR LF. A bulk string is
//! `$`, the number of its bytes, CR LF, the bytes and CR LF; an array is `*`,
//! the number of its elements, CR LF and the elements one behind the other.
//! The null bulk string is `$-1` and the null array `*-1`, each with CR LF.

use crate::codec::push_all;
use crate::text::string_from_utf8;
use vstd::prelude::*;
use vstd::utf8::*;

verus! {

broadcast use {vstd::std_specs::vec::group_vec_axioms, vstd::seq::group_seq_axioms};

/// A value of the wire format.
pub enum Resp {
    SimpleString(String),
    Error(String),
    Integer(i64),
    BulkString(Option<Vec<u8>>),
    Array(Option<Vec<Resp>>),
}

/// Why a value has no text.
#[derive(Debug)]
pub enum RespError {
    /// The encoding holds bytes that are not UTF-8.
    FromUtf8Error(std::string::FromUtf8Error),
}

/// The decimal digits of a number, in ASCII.
pub open spec fn digits(n: nat) -> Seq<u8>
    decreases n,
{
    if n < 10 {
        seq![(48 + n) as u8]
    } else {
        digits(n / 10).push((48 + n % 10) as u8)
    }
}

/// A number in decimal, with a minus sign in front where it is negative.
pub open spec fn decimal(v: int) -> Seq<u8> {
    if v < 0 {
        seq![45u8] + digits((-v) as nat)
    } else {
        digits(v as nat)
    }
}

/// CR LF.
pub open spec fn crlf() -> Seq<u8> {
    seq![13u8, 10u8]
}

/// The bytes that encode a value.
pub open spec fn encoded(value: Resp) -> Seq<u8>
    decreases value, 0nat,
{
    match value {
        Resp::SimpleString(text) => seq![43u8] + encode_utf8(text@) + crlf(),
        Resp::Error(text) => seq![45u8] + encode_utf8(text@) + crlf(),
        Resp::Integer(v) => seq![58u8] + decimal(v as int) + crlf(),
        Resp::BulkString(None) => seq![36u8, 45u8, 49u8] + crlf(),
        Resp::BulkString(Some(bytes)) => seq![36u8] + decimal(bytes@.len() as int) + crlf()
            + bytes@ + crlf(),
        Resp::Array(None) => seq![42u8, 45u8, 49u8] + crlf(),
        Resp::Array(Some(values)) => seq![42u8] + decimal(values@.len() as int) + crlf()
            + encoded_first(values@, values@.len()),
    }
}

/// The bytes that encode the first `n` of the values, one behind the other.
pub open spec fn encoded_first(values: Seq<Resp>, n: nat) -> Seq<u8>
    decreases values, n,
{
    if n == 0 || n > values.len() {
        Seq::empty()
    } else {
        encoded_first(values, (n - 1) as nat) + encoded(values[n - 1])
    }
}

/// Appends the decimal digits of `n`.
fn push_digits(buf: &mut Vec<u8>, n: u64)
    ensures
        final(buf)@ == old(buf)@ + digits(n as nat),
    decreases n,
{
    if n >= 10 {
        push_digits(buf, n / 10);
    }
    buf.push(48 + (n % 10) as u8);
    assert(buf@ =~= old(buf)@ + digits(n as nat));
}

/// Appends CR LF.
fn push_crlf(buf: &mut Vec<u8>)
    ensures
        final(buf)@ == old(buf)@ + crlf(),
{
    buf.push(13);
    buf.push(10);
    assert(buf@ =~= old(buf)@ + crlf());
}

/// Appends an integer: `:`, the number in decimal, CR LF.
pub fn write_i64(buf: &mut Vec<u8>, v: i64)
    ensures
        final(buf)@ == old(buf)@ + (seq![58u8] + decimal(v as int) + crlf()),
{
    buf.push(58);
    if v < 0 {
        buf.push(45);
        push_digits(buf, (-(v + 1)) as u64 + 1);
    } else {
        push_digits(buf, v as u64);
    }
    push_crlf(buf);
    assert(buf@ =~= old(buf)@ + (seq![58u8] + decimal(v as int) + crlf()));
}

/// Appends a line: the text and CR LF. The text of a simple string begins
/// with `+`, that of an error with `-`.
pub fn write_str(buf: &mut Vec<u8>, text: &str)
    ensures
        final(buf)@ == old(buf)@ + (encode_utf8(text@) + crlf()),
{
    push_all(buf, text.as_bytes());
    push_crlf(buf);
    assert(buf@ =~= old(buf)@ + (encode_utf8(text@) + crlf()));
}

/// Appends a bulk string: `$`, the number of bytes, CR LF, the bytes, CR LF.
pub fn write_bytes(buf: &mut Vec<u8>, bytes: &[u8])
    ensures
        final(buf)@ == old(buf)@ + (seq![36u8] + decimal(bytes@.len() as int) + crlf() + bytes@
            + crlf()),
{
    buf.push(36);
    push_digits(buf, bytes.len() as u64);
    push_crlf(buf);
    push_all(buf, bytes);
    push_crlf(buf);
    assert(buf@ =~= old(buf)@ + (seq![36u8] + decimal(bytes@.len() as int) + crlf() + bytes@
        + crlf()));
}

/// Appends the null bulk string: `$-1`, CR LF.
pub fn write_none(buf: &mut Vec<u8>)
    ensures
        final(buf)@ == old(buf)@ + (seq![36u8, 45u8, 49u8] + crlf()),
{
    buf.push(36);
    buf.push(45);
    buf.push(49);
    push_crlf(buf);
    assert(buf@ =~= old(buf)@ + (seq![36u8, 45u8, 49u8] + crlf()));
}

/// Appends the null array: `*-1`, CR LF.
pub fn write_unit(buf: &mut Vec<u8>)
    ensures
        final(buf)@ == old(buf)@ + (seq![42u8, 45u8, 49u8] + crlf()),
{
    buf.push(42);
    buf.push(45);
    buf.push(49);
    push_crlf(buf);
    assert(buf@ =~= old(buf)@ + (seq![42u8, 45u8, 49u8] + crlf()));
}

/// Appends the head of an array: `*`, the number of elements, CR LF.
pub fn write_seq(buf: &mut Vec<u8>, len: usize)
    ensures
        final(buf)@ == old(buf)@ + (seq![42u8] + decimal(len as int) + crlf()),
{
    buf.push(42);
    push_digits(buf, len as u64);
    push_crlf(buf);
    assert(buf@ =~= old(buf)@ + (seq![42u8] + decimal(len as int) + crlf()));
}

/// Appends the encoding of a value to the writer. It never fails.
pub fn to_writer(value: &Resp, writer: &mut Vec<u8>) -> (r: Result<(), RespError>)
    ensures
        r is Ok,
        final(writer)@ == old(writer)@ + encoded(*value),
    decreases value,
{
    match value {
        Resp::SimpleString(text) => {
            writer.push(43);
            write_str(writer, text.as_str());
            assert(writer@ =~= old(writer)@ + encoded(*value));
        },
        Resp::Error(text) => {
            writer.push(45);
            write_str(writer, text.as_str());
            assert(writer@ =~= old(writer)@ + encoded(*value));
        },
        Resp::Integer(v) => write_i64(writer, *v),
        Resp::BulkString(None) => write_none(writer),
        Resp::BulkString(Some(bytes)) => write_bytes(writer, bytes.as_slice()),
        Resp::Array(None) => write_unit(writer),
        Resp::Array(Some(values)) => {
            write_seq(writer, values.len());
            let ghost head = writer@;
            let mut i: usize = 0;
            while i < values.len()
                invariant
                    i <= values.len(),
                    *value == Resp::Array(Some(*values)),
                    writer@ == head + encoded_first(values@, i as nat),
                decreases values.len() - i,
            {
                proof {
                    vstd::std_specs::vec::axiom_vec_index_decreases(*values, i as int);
                    assert(decreases_to!(*value => value->Array_0));
                    assert(decreases_to!(value->Array_0 => value->Array_0->0));
                    assert(decreases_to!(*values => values[i as int]));
                }
                let _ = to_writer(&values[i], writer);
                i += 1;
                assert(writer@ =~= head + encoded_first(values@, i as nat));
            }
            assert(writer@ =~= old(writer)@ + encoded(*value));
        },
    }
    Ok(())
}

/// The encoding of a value as text. It fails exactly when the encoding is
/// not UTF-8, which only the bytes of a bulk string can bring about.
pub fn to_string(value: &Resp) -> (r: Result<String, RespError>)
    ensures
        match r {
            Ok(text) => encode_utf8(text@) == encoded(*value),
            Err(e) => !valid_utf8(encoded(*value)) && e is FromUtf8Error,
        },
{
    let mut buf: Vec<u8> = Vec::new();
    let _ = to_writer(value, &mut buf);
    assert(buf@ =~= encoded(*value));
    match string_from_utf8(buf) {
        Ok(text) => Ok(text),
        Err(e) => Err(RespError::FromUtf8Error(e)),
    }
}

} // verus!
