//! The cryptographic digest used to address objects, and hexadecimal
//! rendering of digests.  Both lean on outside crates through trusted
//! wrappers; everything downstream is proved against their contracts.

use vstd::prelude::*;
use sha1::Digest;
use crate::object::DIGEST_LEN;

verus! {

/// The SHA-1 digest of a byte sequence.  What the bytes are takes pages to
/// state, but they depend on the input alone, so they only get a name here;
/// the trusted wrapper below ties the name to the outside implementation.
pub uninterp spec fn sha1_of(b: Seq<u8>) -> Seq<u8>;

/// Relies on sha1::Sha1 (through the digest::Digest interface): the 20-byte
/// SHA-1 digest of the input, a pure function of the input bytes.
#[verifier::external_body]
pub fn sha1_digest(b: &Vec<u8>) -> (r: Vec<u8>)
    ensures
        r@ == sha1_of(b@),
        r@.len() == DIGEST_LEN,
{
    sha1::Sha1::digest(b.as_slice()).to_vec()
}

/// The ASCII code of the lowercase hex digit for `n`.
pub open spec fn hex_digit(n: u8) -> u8
    recommends
        n < 16,
{
    if n < 10 {
        (48 + n) as u8
    } else {
        (87 + n) as u8
    }
}

/// Lowercase hexadecimal rendering: two digits per byte, high nibble first.
pub open spec fn hex_of(b: Seq<u8>) -> Seq<u8> {
    Seq::new(
        2 * b.len(),
        |i: int|
            if i % 2 == 0 {
                hex_digit((b[i / 2] / 16) as u8)
            } else {
                hex_digit((b[i / 2] % 16) as u8)
            },
    )
}

/// Relies on hex::encode: two lowercase hex digits per input byte, high
/// nibble first.
#[verifier::external_body]
pub fn hex_encode(b: &Vec<u8>) -> (r: Vec<u8>)
    ensures
        r@ == hex_of(b@),
{
    hex::encode(b.as_slice()).into_bytes()
}

} // verus!
