//! Content digests for deduplication.

use vstd::prelude::*;

verus! {

/// The lowercase hexadecimal SHA-256 digest of a line's UTF-8 bytes; names
/// the result of `sha2::Sha256`, which depends on the line alone.
pub uninterp spec fn sha256_hex(line: Seq<char>) -> Seq<char>;

/// Relies on `sha2::Sha256` (through `Digest::update` and
/// `Digest::finalize`) and on the lowercase-hex formatting of the digest:
/// the result is a function of the line's bytes alone.
#[verifier::external_body]
pub(crate) fn line_digest(line: &str) -> (r: String)
    ensures
        r@ == sha256_hex(line@),
{
    let mut hasher: sha2::Sha256 = sha2::Digest::new();
    sha2::Digest::update(&mut hasher, line.as_bytes());
    format!("{:x}", sha2::Digest::finalize(hasher))
}

} // verus!
