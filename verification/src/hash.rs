//! Keccak digests and the printed form of words, both taken from
//! `alloy_primitives`.

use crate::primitives::{Address, B256, U256};
use crate::text;
use vstd::prelude::*;

verus! {

/// The Keccak-256 digest of a byte string.
pub uninterp spec fn keccak256_of(data: Seq<u8>) -> Seq<u8>;

/// `alloy_primitives::keccak256`: a digest of 32 bytes that depends on the
/// data alone.
#[verifier::external_body]
fn keccak256_call(data: &[u8]) -> (r: [u8; 32])
    ensures
        r@ == keccak256_of(data@),
{
    alloy_primitives::keccak256(data).0
}

/// `LowerHex` of `alloy_primitives::FixedBytes` with the alternate flag: the
/// prefix `0x`, then two lower-case digits for each byte.
#[verifier::external_body]
fn fixed_lower_hex<const N: usize>(bytes: [u8; N]) -> (s: String)
    ensures
        s@ == prefixed(text::hex_digits(bytes@)),
{
    format!("{:#x}", alloy_primitives::FixedBytes::<N>(bytes))
}

/// `LowerHex` of `alloy_primitives::U256` with the alternate flag: the prefix
/// `0x`, then the digits of the number without leading zeros, of which zero
/// has one.
#[verifier::external_body]
fn uint_lower_hex(bytes: [u8; 32]) -> (s: String)
    ensures
        s@ == prefixed(without_leading_zeros(text::hex_digits(bytes@))),
{
    format!("{:#x}", alloy_primitives::U256::from_be_bytes(bytes))
}

/// `0x`, then the digits given.
pub open spec fn prefixed(digits: Seq<char>) -> Seq<char> {
    seq!['0', 'x'] + digits
}

/// The digits that are left when leading zeros go, the last digit excepted.
pub open spec fn without_leading_zeros(digits: Seq<char>) -> Seq<char>
    decreases digits.len(),
{
    if digits.len() > 1 && digits[0] == '0' {
        without_leading_zeros(digits.drop_first())
    } else {
        digits
    }
}

/// Copies a slice into an array of the same length.
pub fn to_array<const N: usize>(bytes: &[u8]) -> (r: [u8; N])
    requires
        bytes@.len() == N,
    ensures
        r@ == bytes@,
{
    let mut r: [u8; N] = [0u8; N];
    let mut i: usize = 0;
    while i < N
        invariant
            i <= N,
            bytes@.len() == N,
            forall|k: int| 0 <= k < i ==> r@[k] == bytes@[k],
        decreases N - i,
    {
        r[i] = bytes[i];
        i = i + 1;
    }
    assert(r@ =~= bytes@);
    r
}

/// The Keccak-256 digest of `data`.
pub fn keccak256(data: &[u8]) -> (r: B256)
    ensures
        r.bytes() == keccak256_of(data@),
{
    let digest = keccak256_call(data);
    B256::from_slice(digest.as_slice())
}

/// A hash as it is printed: `0x` and 64 digits.
pub open spec fn b256_text(h: B256) -> Seq<char> {
    prefixed(text::hex_digits(h.bytes()))
}

/// An address as it is printed: `0x` and 40 digits.
pub open spec fn address_text(a: Address) -> Seq<char> {
    prefixed(text::hex_digits(a.bytes()))
}

/// A number as it is printed in base 16: `0x` and no leading zeros.
pub open spec fn u256_text(v: U256) -> Seq<char> {
    prefixed(without_leading_zeros(text::hex_digits(v.bytes())))
}

/// Prints a hash.
pub fn hex_b256(h: &B256) -> (s: String)
    ensures
        s@ == b256_text(*h),
{
    let bytes = h.to_bytes();
    proof {
        crate::primitives::lemma_be_bytes_len(h.hi as nat, 16);
        crate::primitives::lemma_be_bytes_len(h.lo as nat, 16);
    }
    fixed_lower_hex(to_array::<32>(bytes.as_slice()))
}

/// Prints an address.
pub fn hex_address(a: &Address) -> (s: String)
    ensures
        s@ == address_text(*a),
{
    let bytes = a.to_bytes();
    proof {
        crate::primitives::lemma_be_bytes_len(a.hi as nat, 4);
        crate::primitives::lemma_be_bytes_len(a.lo as nat, 16);
    }
    fixed_lower_hex(to_array::<20>(bytes.as_slice()))
}

/// Prints a number in base 16.
pub fn hex_u256(v: U256) -> (s: String)
    ensures
        s@ == u256_text(v),
{
    let bytes = v.to_bytes();
    proof {
        crate::primitives::lemma_be_bytes_len(v.hi as nat, 16);
        crate::primitives::lemma_be_bytes_len(v.lo as nat, 16);
    }
    uint_lower_hex(to_array::<32>(bytes.as_slice()))
}

} // verus!
