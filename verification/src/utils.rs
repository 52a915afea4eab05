//! Digests and their textual form.

use crate::nibbler::nibble_at;
use md5::{Digest, Md5};
use vstd::prelude::*;

verus! {

/// The MD5 digest of `data`, as sixteen bytes.
///
/// MD5 itself is not written out here; this name stands for what the
/// `md-5` crate computes.
pub uninterp spec fn md5_digest(data: Seq<u8>) -> Seq<u8>;

/// Calls `md5::Md5::digest` (the one-shot form of `new`, `update`,
/// `finalize`) and claims only that the sixteen bytes handed back are the
/// digest of exactly the bytes handed in.
#[verifier::external_body]
fn md5_of(data: &[u8]) -> (digest: [u8; 16])
    ensures
        digest@ == md5_digest(data@),
{
    Md5::digest(data).into()
}

/// The 128-bit digest of `data`. Every byte string, the empty one included,
/// has one.
pub fn md5(data: &[u8]) -> (digest: [u8; 16])
    ensures
        digest@ == md5_digest(data@),
{
    md5_of(data)
}

/// Whether two byte strings are the same.
pub fn same_bytes(a: &[u8], b: &[u8]) -> (same: bool)
    ensures
        same == (a@ == b@),
{
    if a.len() != b.len() {
        return false;
    }
    let mut i: usize = 0;
    while i < a.len()
        invariant
            i <= a.len(),
            a.len() == b.len(),
            forall|k: int| 0 <= k < i ==> a@[k] == b@[k],
        decreases a.len() - i,
    {
        if a[i] != b[i] {
            return false;
        }
        i += 1;
    }
    assert(a@ =~= b@);
    true
}

/// The lower-case hexadecimal digit for a value below sixteen.
pub open spec fn hex_digit(n: u8) -> char
    recommends
        n < 16,
{
    seq!['0', '1', '2', '3', '4', '5', '6', '7', '8', '9', 'a', 'b', 'c', 'd', 'e', 'f'][n as int]
}

/// `data` in lower-case hexadecimal: two digits for each byte, the high
/// half-byte first.
pub open spec fn hex_lower(data: Seq<u8>) -> Seq<char> {
    Seq::new(2 * data.len(), |i: int| hex_digit(nibble_at(data, i)))
}

/// The validation token of an encoded picture: the digest of its bytes in
/// hexadecimal.
pub open spec fn fingerprint_of(encoded: Seq<u8>) -> Seq<char> {
    hex_lower(md5_digest(encoded))
}

/// Calls `hex::encode`, which writes each byte as two lower-case
/// hexadecimal digits, the high half-byte first.
#[verifier::external_body]
fn hex_encode(data: &[u8]) -> (text: String)
    ensures
        text@ == hex_lower(data@),
{
    hex::encode(data)
}

/// The fingerprint of an encoded picture, for use as an entity tag: the
/// thirty-two lower-case hexadecimal digits of the digest of `encoded`.
pub fn fingerprint(encoded: &[u8]) -> (tag: String)
    ensures
        tag@ == fingerprint_of(encoded@),
        tag@.len() == 32,
{
    let digest = md5(encoded);
    hex_encode(digest.as_slice())
}

/// Distinct values below sixteen have distinct digits.
pub proof fn lemma_hex_digit_injective(m: u8, n: u8)
    requires
        m < 16,
        n < 16,
        hex_digit(m) == hex_digit(n),
    ensures
        m == n,
{
}

/// Hexadecimal text holds nothing but the sixteen digits; in particular it
/// holds no double quote.
pub proof fn lemma_hex_lower_has_no_quote(data: Seq<u8>, i: int)
    requires
        0 <= i < hex_lower(data).len(),
    ensures
        hex_lower(data)[i] == hex_digit(nibble_at(data, i)),
        nibble_at(data, i) < 16,
        hex_lower(data)[i] != '"',
{
}

/// Hexadecimal text determines the bytes it was made from.
pub proof fn lemma_hex_lower_injective(a: Seq<u8>, b: Seq<u8>)
    requires
        hex_lower(a) == hex_lower(b),
    ensures
        a == b,
{
    assert(2 * a.len() == hex_lower(a).len());
    assert(2 * b.len() == hex_lower(b).len());
    assert(a.len() == b.len());
    assert forall|k: int| 0 <= k < a.len() implies a[k] == b[k] by {
        assert(hex_lower(a)[2 * k] == hex_digit(nibble_at(a, 2 * k)));
        assert(hex_lower(b)[2 * k] == hex_digit(nibble_at(b, 2 * k)));
        assert(hex_lower(a)[2 * k + 1] == hex_digit(nibble_at(a, 2 * k + 1)));
        assert(hex_lower(b)[2 * k + 1] == hex_digit(nibble_at(b, 2 * k + 1)));
        lemma_hex_digit_injective(nibble_at(a, 2 * k), nibble_at(b, 2 * k));
        lemma_hex_digit_injective(nibble_at(a, 2 * k + 1), nibble_at(b, 2 * k + 1));
    }
    assert(a =~= b);
}

/// Two encoded pictures carry the same fingerprint exactly when their
/// digests agree. In particular the same bytes always carry the same
/// fingerprint.
pub proof fn lemma_fingerprint_follows_digest(a: Seq<u8>, b: Seq<u8>)
    ensures
        fingerprint_of(a) == fingerprint_of(b) <==> md5_digest(a) == md5_digest(b),
        a == b ==> fingerprint_of(a) == fingerprint_of(b),
{
    if fingerprint_of(a) == fingerprint_of(b) {
        lemma_hex_lower_injective(md5_digest(a), md5_digest(b));
    }
}

} // verus!
