//! Byte-level primitives: UTF-8 validation, whitespace trimming, key hashing
//! and byte searches, each relying on std or an outside crate.
use vstd::prelude::*;
use vstd::utf8::valid_utf8;
use vstd::string::StringSliceAdditionalSpecFns;

verus! {

/// What `str::trim` leaves of a text, given and returned as its UTF-8 bytes.
pub uninterp spec fn trim_of(b: Seq<u8>) -> Seq<u8>;

/// The XXH3 64-bit digest of a byte sequence.
pub uninterp spec fn xxh3_of(b: Seq<u8>) -> u64;

/// Whether the two bytes `a`, `b` stand at `k` and `k + 1` in `s`.
pub open spec fn pair_at(s: Seq<u8>, k: int, a: u8, b: u8) -> bool {
    0 <= k && k + 1 < s.len() && s[k] == a && s[k + 1] == b
}

/// Relies on `std::str::from_utf8`: a slice is accepted exactly when it is
/// valid UTF-8, and the text then has the same bytes.
#[verifier::external_body]
pub(crate) fn utf8_text(b: &[u8]) -> (r: Option<&str>)
    ensures
        r.is_some() == valid_utf8(b@),
        r matches Some(t) ==> t.spec_bytes() == b@,
{
    std::str::from_utf8(b).ok()
}

/// Relies on `str::trim`: the text with leading and trailing whitespace removed.
#[verifier::external_body]
pub(crate) fn trim_text(t: &str) -> (r: &str)
    ensures
        r.spec_bytes() == trim_of(t.spec_bytes()),
{
    t.trim()
}

/// Relies on `xxhash_rust::xxh3::xxh3_64`: the 64-bit XXH3 digest of the bytes.
#[verifier::external_body]
pub(crate) fn key_hash(key: &[u8]) -> (r: u64)
    ensures
        r == xxh3_of(key@),
{
    xxhash_rust::xxh3::xxh3_64(key)
}

/// Relies on `memchr::memchr`: the offset, within `hay[from..]`, of the first
/// byte equal to `needle`.
#[verifier::external_body]
pub(crate) fn find_byte(needle: u8, hay: &[u8], from: usize) -> (r: Option<usize>)
    requires
        from <= hay@.len(),
    ensures
        match r {
            Some(k) => from + k < hay@.len() && hay@[from + k] == needle && forall|j: int|
                from <= j < from + k ==> hay@[j] != needle,
            None => forall|j: int| from <= j < hay@.len() ==> hay@[j] != needle,
        },
{
    memchr::memchr(needle, &hay[from..])
}

/// Relies on `memchr::memmem::find`: the offset, within `hay[from..]`, of the
/// first occurrence of the two bytes `a`, `b`.
#[verifier::external_body]
pub(crate) fn find_pair(a: u8, b: u8, hay: &[u8], from: usize) -> (r: Option<usize>)
    requires
        from <= hay@.len(),
    ensures
        match r {
            Some(k) => pair_at(hay@, from + k, a, b) && forall|j: int|
                from <= j < from + k ==> !pair_at(hay@, j, a, b),
            None => forall|j: int| from <= j < hay@.len() ==> !pair_at(hay@, j, a, b),
        },
{
    memchr::memmem::find(&hay[from..], &[a, b])
}

} // verus!
