//! Thin, trusted wrappers around the outside functions the game logic needs:
//! Unicode case folding and trimming from `str`, and random identifier
//! strings from the `rand` crate.  Everything else in the crate is verified
//! against the contracts stated here.

use vstd::prelude::*;

verus! {

/// The case-folded form of a string, as `str::to_lowercase` computes it.
pub uninterp spec fn lower_of(s: Seq<char>) -> Seq<char>;

/// The whitespace-trimmed form of a string, as `str::trim` computes it.
pub uninterp spec fn trimmed_of(s: Seq<char>) -> Seq<char>;

/// Relies on `str::to_lowercase`: the result depends on the characters alone.
#[verifier::external_body]
pub(crate) fn lowercase(s: &str) -> (r: String)
    ensures
        r@ == lower_of(s@),
{
    s.to_lowercase()
}

/// Relies on `str::trim`: the returned slice depends on the characters alone.
#[verifier::external_body]
pub(crate) fn trim_part(s: &str) -> (r: &str)
    ensures
        r@ == trimmed_of(s@),
{
    s.trim()
}

/// Relies on rand's `Alphanumeric` distribution through `SampleString`:
/// the returned string holds exactly `len` ASCII alphanumeric characters.
/// Nothing else is assumed of a random value.
#[verifier::external_body]
pub(crate) fn rand_str(len: usize) -> (r: String)
    ensures
        r@.len() == len as nat,
{
    rand::distr::SampleString::sample_string(&rand::distr::Alphanumeric, &mut rand::rng(), len)
}

/// Relies on `str`'s `PartialEq`: character-for-character equality.
#[verifier::external_body]
pub(crate) fn str_eq(a: &str, b: &str) -> (r: bool)
    ensures
        r == (a@ == b@),
{
    a == b
}

} // verus!
