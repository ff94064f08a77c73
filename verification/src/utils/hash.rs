//! BLAKE3 hashing state and hash comparison.

use vstd::prelude::*;
use crate::text::{ascii_lower, chars_of, trim_chars, trim_seq};

verus! {

#[verifier::external_type_specification]
#[verifier::external_body]
pub struct ExBlake3Hasher(blake3::Hasher);

/// The lowercase hexadecimal BLAKE3 digest of `data`.
pub uninterp spec fn blake3_hex(data: Seq<u8>) -> Seq<char>;

/// The bytes fed so far into a BLAKE3 hasher.
pub uninterp spec fn hasher_input(h: blake3::Hasher) -> Seq<u8>;

/// Whether `c` is a lowercase hexadecimal digit.
pub open spec fn is_lower_hex(c: char) -> bool {
    ('0' <= c && c <= '9') || ('a' <= c && c <= 'f')
}

/// Calls `blake3::Hasher::new`: a hasher that has been fed nothing.
#[verifier::external_body]
fn hasher_new() -> (h: blake3::Hasher)
    ensures
        hasher_input(h) == Seq::<u8>::empty(),
{
    blake3::Hasher::new()
}

/// Calls `blake3::Hasher::update`: feeds `data` after what was fed before.
#[verifier::external_body]
fn hasher_update(h: &mut blake3::Hasher, data: &[u8])
    ensures
        hasher_input(*final(h)) == hasher_input(*old(h)) + data@,
{
    h.update(data);
}

/// Calls `blake3::Hasher::finalize` and hex-encodes the digest: the BLAKE3 hash
/// of everything fed so far, as 64 lowercase hexadecimal characters.
#[verifier::external_body]
fn hasher_finalize_hex(h: &blake3::Hasher) -> (r: String)
    ensures
        r@ == blake3_hex(hasher_input(*h)),
        r@.len() == 64,
        forall|i: int| 0 <= i < r@.len() ==> is_lower_hex(#[trigger] r@[i]),
{
    h.finalize().to_hex().to_string()
}

/// Calls `blake3::Hasher::update_rayon` on a fresh hasher and finalizes it:
/// the BLAKE3 hash of `data`, as 64 lowercase hexadecimal characters.
#[verifier::external_body]
fn hash_all_hex(data: &[u8]) -> (r: String)
    ensures
        r@ == blake3_hex(data@),
        r@.len() == 64,
        forall|i: int| 0 <= i < r@.len() ==> is_lower_hex(#[trigger] r@[i]),
{
    blake3::Hasher::new().update_rayon(data).finalize().to_hex().to_string()
}

/// The BLAKE3 hash (lowercase hex) of a whole byte buffer, such as a
/// memory-mapped file.
pub fn hash_bytes(data: &[u8]) -> (r: String)
    ensures
        r@ == blake3_hex(data@),
        r@.len() == 64,
        forall|i: int| 0 <= i < r@.len() ==> is_lower_hex(#[trigger] r@[i]),
{
    hash_all_hex(data)
}

/// Streaming BLAKE3 hashing that also counts the bytes processed, for
/// progress reporting.
pub struct HashAccumulator {
    hasher: blake3::Hasher,
    processed: u64,
}

impl HashAccumulator {
    /// The bytes fed so far.
    pub closed spec fn input(&self) -> Seq<u8> {
        hasher_input(self.hasher)
    }

    /// The number of bytes fed so far.
    pub closed spec fn count(&self) -> nat {
        self.processed as nat
    }

    /// Whether the byte count matches the input.
    pub closed spec fn wf(&self) -> bool {
        self.processed as nat == hasher_input(self.hasher).len()
    }

    /// An accumulator that has seen no bytes.
    pub fn new() -> (r: Self)
        ensures
            r.wf(),
            r.input() == Seq::<u8>::empty(),
    {
        HashAccumulator { hasher: hasher_new(), processed: 0 }
    }

    /// Feeds the next chunk; returns the number of bytes processed so far.
    pub fn feed(&mut self, chunk: &[u8]) -> (processed: u64)
        requires
            old(self).wf(),
            old(self).input().len() + chunk@.len() <= u64::MAX,
        ensures
            final(self).wf(),
            final(self).input() == old(self).input() + chunk@,
            processed == final(self).input().len(),
    {
        hasher_update(&mut self.hasher, chunk);
        self.processed = self.processed + chunk.len() as u64;
        self.processed
    }

    /// The number of bytes processed so far.
    pub fn processed(&self) -> (r: u64)
        requires
            self.wf(),
        ensures
            r == self.input().len(),
    {
        self.processed
    }

    /// The lowercase hexadecimal BLAKE3 hash of everything fed.
    pub fn finish(&self) -> (r: String)
        ensures
            r@ == blake3_hex(self.input()),
            r@.len() == 64,
            forall|i: int| 0 <= i < r@.len() ==> is_lower_hex(#[trigger] r@[i]),
    {
        hasher_finalize_hex(&self.hasher)
    }
}

/// Whether `a` and `b` are equal when ASCII letters are compared without
/// regard to case (`str::eq_ignore_ascii_case`).
pub open spec fn eq_ignore_ascii_case(a: Seq<char>, b: Seq<char>) -> bool {
    a.len() == b.len() && forall|i: int| 0 <= i < a.len() ==> ascii_lower(#[trigger] a[i])
        == ascii_lower(b[i])
}

fn lower_char(c: char) -> (r: char)
    ensures
        r == ascii_lower(c),
{
    if c >= 'A' && c <= 'Z' {
        ((c as u8) + 32) as char
    } else {
        c
    }
}

/// Case-insensitive (ASCII) comparison of two character sequences.
pub fn chars_eq_ignore_ascii_case(a: &[char], b: &[char]) -> (r: bool)
    ensures
        r == eq_ignore_ascii_case(a@, b@),
{
    if a.len() != b.len() {
        return false;
    }
    let mut i: usize = 0;
    while i < a.len()
        invariant
            a@.len() == b@.len(),
            i <= a@.len(),
            forall|j: int| 0 <= j < i ==> ascii_lower(#[trigger] a@[j]) == ascii_lower(b@[j]),
        decreases a@.len() - i,
    {
        if lower_char(a[i]) != lower_char(b[i]) {
            return false;
        }
        i = i + 1;
    }
    true
}

/// Whether a computed hash matches an expected hash given as hex text:
/// the expected text is trimmed and compared without regard to ASCII case.
pub fn hash_matches(actual_hash: &str, expected_hash: &str) -> (r: bool)
    ensures
        r == eq_ignore_ascii_case(actual_hash@, trim_seq(expected_hash@)),
{
    let a = chars_of(actual_hash);
    let e = chars_of(expected_hash);
    let et = trim_chars(e.as_slice());
    chars_eq_ignore_ascii_case(a.as_slice(), et.as_slice())
}

} // verus!
