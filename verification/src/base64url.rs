use base64::engine::general_purpose::URL_SAFE_NO_PAD;
use base64::Engine;
use vstd::prelude::*;

verus! {

/// The `base64` crate's decoding error. Nothing is read from it: any such
/// error becomes `Base64DecodeError`.
#[verifier::external_type_specification]
#[verifier::external_body]
pub struct ExDecodeError(base64::DecodeError);

/// The text that the `base64` crate's `URL_SAFE_NO_PAD` engine encodes
/// `bytes` to.
pub uninterp spec fn base64url_text(bytes: Seq<u8>) -> Seq<char>;

/// The bytes that the `base64` crate's `URL_SAFE_NO_PAD` engine decodes
/// `text` to, or `None` where it reports an error.
pub uninterp spec fn base64url_bytes(text: Seq<char>) -> Option<Seq<u8>>;

/// Number of characters in the unpadded encoding of `len` bytes: four for
/// every three bytes, and two or three for a remainder of one or two.
pub open spec fn base64url_len(len: int) -> int {
    (len / 3) * 4 + if len % 3 == 0 {
        0int
    } else {
        len % 3 + 1
    }
}

/// Calls `Engine::encode` on `base64::engine::general_purpose::URL_SAFE_NO_PAD`.
///
/// Trusted: the result is the engine's encoding of `bytes`, it has the
/// length the crate's `encoded_len` computes for unpadded output, and the
/// same engine decodes it back to `bytes`. The bound on the input keeps the
/// length computation, which panics on overflow, within `usize`.
#[verifier::external_body]
pub(crate) fn encode_base64url(bytes: &Vec<u8>) -> (text: String)
    requires
        bytes@.len() <= 0x2000_0000,
    ensures
        text@ == base64url_text(bytes@),
        text@.len() == base64url_len(bytes@.len() as int),
        base64url_bytes(text@) == Some(bytes@),
{
    URL_SAFE_NO_PAD.encode(bytes)
}

/// Calls `Engine::decode` on `base64::engine::general_purpose::URL_SAFE_NO_PAD`.
///
/// Trusted: the result is what the engine reports for `text`. The engine
/// takes no padding and no stray trailing bits, so whatever it accepts is
/// the very text that encoding the decoded bytes gives.
#[verifier::external_body]
pub(crate) fn decode_base64url(text: &str) -> (r: Result<Vec<u8>, base64::DecodeError>)
    ensures
        match r {
            Ok(bytes) => base64url_bytes(text@) == Some(bytes@) && base64url_text(bytes@)
                == text@,
            Err(_) => base64url_bytes(text@) is None,
        },
{
    URL_SAFE_NO_PAD.decode(text)
}

} // verus!
