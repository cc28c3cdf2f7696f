//! SHA-256 and hexadecimal text.

use vstd::prelude::*;
use vstd::string::*;

verus! {

/// The SHA-256 digest of `bytes`.
pub uninterp spec fn sha256_of(bytes: Seq<u8>) -> Seq<u8>;

/// The SHA-256 digest of `bytes`, by `sha2::Sha256::digest`. It depends on the
/// bytes alone and has 32 bytes.
#[verifier::external_body]
pub(crate) fn sha256(bytes: &[u8]) -> (r: [u8; 32])
    ensures
        r@ == sha256_of(bytes@),
{
    <sha2::Sha256 as sha2::Digest>::digest(bytes).into()
}

/// The hexadecimal digit for `v`, in lower case.
pub open spec fn hex_digit(v: int) -> char {
    if v < 10 {
        ((48 + v) as u8) as char
    } else {
        ((87 + v) as u8) as char
    }
}

/// Two hexadecimal digits per byte, in order.
pub open spec fn hex_text(bytes: Seq<u8>) -> Seq<char>
    decreases bytes.len(),
{
    if bytes.len() == 0 {
        Seq::empty()
    } else {
        hex_text(bytes.drop_last()).push(hex_digit(bytes.last() as int / 16)).push(
            hex_digit(bytes.last() as int % 16),
        )
    }
}

/// `bytes` in hexadecimal, by `hex::encode`: two lower-case digits per byte.
#[verifier::external_body]
fn hex_encode(bytes: &[u8]) -> (r: String)
    ensures
        r@ == hex_text(bytes@),
{
    hex::encode(bytes)
}

/// The first eight bytes of a digest, in hexadecimal.
pub fn short_hex(full: &[u8; 32]) -> (r: String)
    ensures
        r@ == hex_text(full@.take(8)),
{
    let mut head: Vec<u8> = Vec::new();
    let mut i: usize = 0;
    while i < 8
        invariant
            i <= 8,
            head@ == full@.take(i as int),
        decreases 8 - i,
    {
        head.push(full[i]);
        assert(head@ =~= full@.take(i + 1));
        i = i + 1;
    }
    hex_encode(head.as_slice())
}

/// The short digest of a proof's bytes: the first eight bytes of their SHA-256,
/// in hexadecimal.
pub fn proof_digest(bytes: &[u8]) -> (r: String)
    ensures
        r@ == hex_text(sha256_of(bytes@).take(8)),
{
    let full: [u8; 32] = sha256(bytes);
    short_hex(&full)
}

/// A digest with the version byte 1 in front.
pub fn with_version(full: [u8; 32]) -> (r: [u8; 32])
    ensures
        r@ == full@.update(0, 1u8),
{
    let mut r: [u8; 32] = full;
    r[0] = 1u8;
    assert(r@ =~= full@.update(0, 1u8));
    r
}

/// The versioned hash of a commitment: its SHA-256 with the version byte 1 in
/// front.
pub fn versioned_hash(commitment: &[u8]) -> (r: [u8; 32])
    ensures
        r@ == sha256_of(commitment@).update(0, 1u8),
{
    with_version(sha256(commitment))
}

} // verus!
