//! Base58 (Bitcoin alphabet) through the `bs58` crate.

use vstd::prelude::*;

verus! {

/// What `bs58::decode(s).into_vec()` gives for the characters `s`: the
/// decoded bytes, or the text of the decoding error.
pub uninterp spec fn base58_decoded(s: Seq<char>) -> Result<Seq<u8>, Seq<char>>;

/// What `bs58::encode(bytes).into_string()` gives for `bytes`.
pub uninterp spec fn base58_encoded(bytes: Seq<u8>) -> Seq<char>;

/// A decoding outcome seen through the views of its parts.
pub open spec fn decoded_view(r: Result<Vec<u8>, String>) -> Result<Seq<u8>, Seq<char>> {
    match r {
        Ok(v) => Ok(v@),
        Err(e) => Err(e@),
    }
}

/// Calls `bs58::decode(s).into_vec()`; an error is handed back as the text
/// that its `Display` writes. The contract claims only that the outcome is
/// a function of `s` (named `base58_decoded`); what that function is, is the
/// Base58 algorithm of the crate and is not stated here.
#[verifier::external_body]
pub(crate) fn bs58_decode(s: &str) -> (r: Result<Vec<u8>, String>)
    ensures
        decoded_view(r) == base58_decoded(s@),
{
    bs58::decode(s).into_vec().map_err(|e| e.to_string())
}

/// Calls `bs58::encode(bytes).into_string()`. The contract claims only that
/// the text is a function of the bytes (named `base58_encoded`).
#[verifier::external_body]
pub(crate) fn bs58_encode(bytes: &[u8]) -> (r: String)
    ensures
        r@ == base58_encoded(bytes@),
{
    bs58::encode(bytes).into_string()
}

} // verus!
