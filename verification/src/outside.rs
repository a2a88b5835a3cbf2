//! Calls into other crates. Nothing in this file is proved: each contract
//! states what the called function is relied on to do.

use base64::engine::general_purpose::STANDARD;
use base64::Engine;
use vstd::prelude::*;

verus! {

/// The error with which `base64` turns down text that is not base64.
#[verifier::external_type_specification]
#[verifier::external_body]
pub struct ExDecodeError(base64::DecodeError);

/// The standard base64 encoding, with padding, of `bytes`.
pub uninterp spec fn base64_text(bytes: Seq<u8>) -> Seq<char>;

/// The bytes that `text` is standard base64 with padding for, or `None` where
/// `text` is no such encoding.
pub uninterp spec fn base64_bytes(text: Seq<char>) -> Option<Seq<u8>>;

/// Calls `base64::Engine::encode` on the engine `STANDARD`.
///
/// The result is the standard base64 encoding of `bytes`, and decoding it
/// with the same engine gives `bytes` back. The call panics only when the
/// length of the encoding does not fit in a `usize`.
#[verifier::external_body]
pub(crate) fn base64_encode(bytes: &[u8]) -> (text: String)
    requires
        4 * (bytes@.len() / 3) + (if bytes@.len() % 3 > 0 { 4int } else { 0int }) <= usize::MAX,
    ensures
        text@ == base64_text(bytes@),
        base64_bytes(text@) == Some(bytes@),
{
    STANDARD.encode(bytes)
}

/// Calls `base64::Engine::decode` on the engine `STANDARD`.
///
/// The result is `Ok` with the decoded bytes where `text` is standard base64
/// with padding, and an error otherwise.
#[verifier::external_body]
pub(crate) fn base64_decode(text: &str) -> (decoded: Result<Vec<u8>, base64::DecodeError>)
    ensures
        match decoded {
            Ok(bytes) => base64_bytes(text@) == Some(bytes@),
            Err(_) => base64_bytes(text@) is None,
        },
{
    STANDARD.decode(text)
}

} // verus!
