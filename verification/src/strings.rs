//! The string bridge: between managed text and the engine's byte-string
//! representation.
//!
//! The engine's strings are plain byte strings with no text encoding
//! attached. Going in, the bridge appends raw bytes and never validates
//! them; only coming back out, at the application boundary, is UTF-8
//! validity enforced, and there it fails with a typed error rather than
//! mangling the data.

use vstd::prelude::*;
use vstd::string::StringSliceAdditionalSpecFns;
use vstd::slice::slice_to_vec;
use vstd::utf8::valid_utf8;

verus! {

/// An engine byte string did not hold valid UTF-8 text.
#[derive(Debug, Clone, Copy, PartialEq, Eq, Structural)]
pub enum Utf8Error {
    /// The bytes are not a UTF-8 encoding.
    InvalidEncoding,
}

/// Turn managed text into the engine's byte-string representation: the
/// text's raw bytes, copied as they are.
pub fn engine_string_from_text(s: &str) -> (r: Vec<u8>)
    ensures
        r@ == s.spec_bytes(),
{
    slice_to_vec(s.as_bytes())
}

/// Append raw bytes to an engine byte string under construction, with no
/// validation: the bridge is encoding-agnostic on the way in.
pub fn engine_string_push(buf: &mut Vec<u8>, bytes: &[u8])
    ensures
        final(buf)@ == old(buf)@ + bytes@,
{
    let n = bytes.len();
    let mut i: usize = 0;
    while i < n
        invariant
            n == bytes@.len(),
            0 <= i <= n,
            buf@ == old(buf)@ + bytes@.take(i as int),
        decreases n - i,
    {
        buf.push(bytes[i]);
        proof {
            assert(buf@ =~= old(buf)@ + bytes@.take(i as int + 1));
        }
        i += 1;
    }
    proof {
        assert(old(buf)@ + bytes@.take(n as int) =~= old(buf)@ + bytes@);
    }
}

/// Read an engine byte string back as text, enforcing UTF-8 validity at
/// this boundary: succeeds exactly on valid encodings, and hands back text
/// with exactly the given bytes.
///
/// Relies on `core::str::from_utf8`: it returns the byte slice as text
/// when the bytes are valid UTF-8, and an error otherwise.
#[verifier::external_body]
pub fn text_from_engine(v: &[u8]) -> (r: Result<&str, Utf8Error>)
    ensures
        r is Ok <==> valid_utf8(v@),
        r matches Ok(s) ==> s.spec_bytes() == v@,
        r matches Err(e) ==> e == Utf8Error::InvalidEncoding,
{
    match core::str::from_utf8(v) {
        Ok(s) => Ok(s),
        Err(_) => Err(Utf8Error::InvalidEncoding),
    }
}

} // verus!
