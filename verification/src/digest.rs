//! Content verification: a payload's bytes are trusted only if their SHA-256
//! digest, written in hex, equals the digest the catalog declares.

use vstd::prelude::*;
use sha2::Digest;
use crate::catalog::Payload;
use crate::errors::FatalError;

verus! {

/// The SHA-256 digest of the bytes, written as 64 lowercase hex digits.
pub uninterp spec fn sha256_hex_of(bytes: Seq<u8>) -> Seq<char>;

/// Relies on sha2::Sha256, the RustCrypto implementation of SHA-256, and on
/// the lowercase-hex formatting of its 32-byte output: the result is a
/// function of the input bytes alone.
#[verifier::external_body]
fn sha256_hex(data: &[u8]) -> (r: String)
    ensures
        r@ == sha256_hex_of(data@),
{
    let mut hasher = sha2::Sha256::new();
    hasher.update(data);
    format!("{:x}", hasher.finalize())
}

/// Whether the bytes hash to the declared hex digest.
pub fn bytes_match_digest(data: &[u8], sha256: &String) -> (r: bool)
    ensures
        r == (sha256_hex_of(data@) == sha256@),
{
    let h = sha256_hex(data);
    h.eq(sha256)
}

/// The probe of one payload against the local file contents, `None` when the
/// file does not exist: the payload is satisfied only if the file exists and
/// its digest matches, so a corrupt file counts the same as an absent one.
pub fn payload_satisfied(content: Option<&Vec<u8>>, payload: &Payload) -> (r: bool)
    ensures
        r == match content {
            Some(c) => sha256_hex_of(c@) == payload@.sha256,
            None => false,
        },
{
    match content {
        Some(c) => bytes_match_digest(c.as_slice(), &payload.sha256),
        None => false,
    }
}

/// The outcome of one fetch: the bytes are accepted when their
/// digest matches the declared one; a mismatch right after a fetch is fatal
/// and aborts the run, with no retry.
pub fn fetch_outcome(data: &Vec<u8>, payload: &Payload) -> (r: Result<(), FatalError>)
    ensures
        r is Ok <==> sha256_hex_of(data@) == payload@.sha256,
        r matches Err(e) ==> e == FatalError::IntegrityError,
{
    if bytes_match_digest(data.as_slice(), &payload.sha256) {
        Ok(())
    } else {
        Err(FatalError::IntegrityError)
    }
}

} // verus!
