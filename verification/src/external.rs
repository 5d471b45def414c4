use flate2::read::GzDecoder;
use rand::RngExt;
use rand_chacha::ChaCha8Rng;
use std::io::Read;
use vstd::prelude::*;

verus! {

/// The seeded generator of `rand_chacha`; Verus sees nothing of its state.
#[verifier::external_type_specification]
#[verifier::external_body]
pub struct ExChaCha8Rng(ChaCha8Rng);

/// Calls `rand::RngExt::random_range` on `lo..=hi` for `i32`.
/// Trusted: the value lies in the range (rand's documentation); an empty range
/// panics, which `requires` rules out. Nothing is said of which value comes out.
#[verifier::external_body]
pub(crate) fn random_i32_inclusive(rng: &mut ChaCha8Rng, lo: i32, hi: i32) -> (r: i32)
    requires
        lo <= hi,
    ensures
        lo <= r <= hi,
{
    rng.random_range(lo..=hi)
}

/// Calls `rand::RngExt::random_range` on `lo..hi` for `i32`.
/// Trusted: the value lies in the half-open range; an empty range panics,
/// which `requires` rules out.
#[verifier::external_body]
pub(crate) fn random_i32_below(rng: &mut ChaCha8Rng, lo: i32, hi: i32) -> (r: i32)
    requires
        lo < hi,
    ensures
        lo <= r < hi,
{
    rng.random_range(lo..hi)
}

/// Calls `rand::RngExt::random_range` on `lo..=hi` for `usize`.
/// Trusted: the value lies in the range; an empty range panics, which
/// `requires` rules out.
#[verifier::external_body]
pub(crate) fn random_usize_inclusive(rng: &mut ChaCha8Rng, lo: usize, hi: usize) -> (r: usize)
    requires
        lo <= hi,
    ensures
        lo <= r <= hi,
{
    rng.random_range(lo..=hi)
}

/// Calls `rand::RngExt::random_range` on `lo..=hi` for `u64`.
/// Trusted: the value lies in the range; an empty range panics, which
/// `requires` rules out.
#[verifier::external_body]
pub(crate) fn random_u64_inclusive(rng: &mut ChaCha8Rng, lo: u64, hi: u64) -> (r: u64)
    requires
        lo <= hi,
    ensures
        lo <= r <= hi,
{
    rng.random_range(lo..=hi)
}

/// What `char::to_uppercase` yields for a character (the Unicode uppercase mapping).
pub uninterp spec fn uppercase_mapping(c: char) -> Seq<char>;

/// The uppercase of an ASCII character: `a`..`z` become `A`..`Z`, the others stay.
pub open spec fn ascii_upper(c: char) -> char {
    if 'a' <= c && c <= 'z' {
        ((c as u32) - 32) as char
    } else {
        c
    }
}

/// Calls `char::to_uppercase` and collects its characters.
/// Trusted: the result is the uppercase mapping of `c`, which depends on `c` alone,
/// and holds at least one character (the standard library documents "one or more");
/// for an ASCII character it is the single ASCII uppercase character (the Unicode
/// mapping of `a`..`z` is `A`..`Z`, and other ASCII characters have none, so they
/// map to themselves, as `char::to_uppercase` documents).
#[verifier::external_body]
pub(crate) fn to_uppercase_string(c: char) -> (s: String)
    ensures
        s@ == uppercase_mapping(c),
        s@.len() >= 1,
        (c as u32) < 128 ==> s@ == seq![ascii_upper(c)],
{
    c.to_uppercase().collect::<String>()
}

/// What a gzip decoder yields for a whole compressed input: the decompressed
/// bytes, or nothing when the input is not a valid gzip stream.
pub uninterp spec fn gzip_contents(compressed: Seq<u8>) -> Option<Seq<u8>>;

/// Calls `flate2::read::GzDecoder::new` on the bytes and reads it to the end.
/// Trusted: the outcome is a function of the input bytes alone; a read error
/// (invalid gzip data) comes back as `None`.
#[verifier::external_body]
pub(crate) fn gzip_decode(compressed: &[u8]) -> (r: Option<Vec<u8>>)
    ensures
        match r {
            Some(v) => gzip_contents(compressed@) == Some(v@),
            None => gzip_contents(compressed@) is None,
        },
{
    let mut decoder = GzDecoder::new(compressed);
    let mut out = Vec::new();
    match decoder.read_to_end(&mut out) {
        Ok(_) => Some(out),
        Err(_) => None,
    }
}

} // verus!
