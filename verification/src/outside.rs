//! The calls this library makes into std functions that vstd leaves unspecified and into outside
//! crates. Each item here is trusted: its contract is believed, not proved.

use sha2::Digest;
use vstd::prelude::*;

verus! {

/// `String::push`: appends one character to the end of the string.
#[verifier::external_body]
pub fn push_char(s: &mut String, c: char)
    ensures
        final(s)@ == old(s)@.push(c),
{
    s.push(c)
}

/// The string that `unicase` folds `s` to: its ASCII lowercase form when `s` is all ASCII,
/// and otherwise the Unicode CaseFolding of each of its characters. Two strings are equal as
/// `unicase::UniCase` values exactly when their foldings are equal.
pub uninterp spec fn case_folded(s: Seq<char>) -> Seq<char>;

/// `unicase::UniCase::new(s).to_folded_case()`: the case-folded form of `s`, which the contract
/// names without stating it.
#[verifier::external_body]
pub fn case_fold(s: &str) -> (r: String)
    ensures
        r@ == case_folded(s@),
{
    unicase::UniCase::new(s).to_folded_case()
}

/// The lowercase form of `s` under the Unicode `Lowercase` mapping, as `str::to_lowercase`
/// computes it.
pub uninterp spec fn lowercased(s: Seq<char>) -> Seq<char>;

/// `str::to_lowercase`: the lowercase equivalent of `s`, which the contract names without
/// stating it.
#[verifier::external_body]
pub fn to_lowercase(s: &str) -> (r: String)
    ensures
        r@ == lowercased(s@),
{
    s.to_lowercase()
}

/// The SHA-256 digest of `bytes` as FIPS 180-4 defines it.
pub uninterp spec fn sha256_of(bytes: Seq<u8>) -> Seq<u8>;

/// `sha2::Sha256::digest`: the SHA-256 digest of `bytes`, which the contract names without
/// stating it; the digest of `Sha256` is 32 bytes long.
#[verifier::external_body]
pub fn sha256_digest(bytes: &[u8]) -> (r: Vec<u8>)
    ensures
        r@ == sha256_of(bytes@),
        r@.len() == 32,
{
    sha2::Sha256::digest(bytes).to_vec()
}

} // verus!
