use vstd::prelude::*;
use vstd::utf8::*;

verus! {

#[verifier::external_type_specification]
#[verifier::external_body]
pub struct ExFromUtf8Error(std::string::FromUtf8Error);

/// `String::from_utf8` of the standard library. It is taken to accept exactly
/// the byte vectors that are valid UTF-8, and to return on success the string
/// whose UTF-8 bytes are the vector's. Verus does not check this.
#[verifier::external_body]
pub(crate) fn string_from_utf8(bytes: Vec<u8>) -> (r: Result<String, std::string::FromUtf8Error>)
    ensures
        r is Ok <==> valid_utf8(bytes@),
        r matches Ok(s) ==> encode_utf8(s@) == bytes@,
{
    String::from_utf8(bytes)
}

} // verus!
