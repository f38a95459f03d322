//! The BLAKE2b hasher behind every digest.

use vstd::prelude::*;

verus! {

/// The incremental hasher of `blake2b_simd`.
#[verifier::external_type_specification]
#[verifier::external_body]
pub struct ExState(blake2b_simd::State);

/// The input that a hasher has taken in since it was made, in order.
pub uninterp spec fn absorbed(state: blake2b_simd::State) -> Seq<u8>;

/// The unkeyed BLAKE2b hash of `input` with a length of 32 bytes, written
/// as lowercase hexadecimal digits.
pub uninterp spec fn blake2b_hex(input: Seq<u8>) -> Seq<char>;

/// A lowercase hexadecimal digit.
pub open spec fn is_hex_digit(c: char) -> bool {
    48 <= c as u32 <= 57 || 97 <= c as u32 <= 102
}

/// The shape of every digest: 64 lowercase hexadecimal digits.
pub open spec fn is_hex_digest(s: Seq<char>) -> bool {
    &&& s.len() == 64
    &&& forall|i: int| 0 <= i < s.len() ==> is_hex_digit(#[trigger] s[i])
}

/// `Params::new().hash_length(32).to_state()`: a hasher for unkeyed hashes
/// of 32 bytes, which has taken in nothing yet.
#[verifier::external_body]
pub(crate) fn hasher_new() -> (state: blake2b_simd::State)
    ensures
        absorbed(state) == Seq::<u8>::empty(),
{
    blake2b_simd::Params::new().hash_length(32).to_state()
}

/// `State::update`: the hasher takes in `input` after what it already has.
#[verifier::external_body]
pub(crate) fn hasher_update(state: &mut blake2b_simd::State, input: &[u8])
    ensures
        absorbed(*final(state)) == absorbed(*old(state)) + input@,
{
    state.update(input);
}

/// `State::finalize` followed by `Hash::to_hex`: the hash of all that a
/// hasher made by `hasher_new` has taken in, as 64 lowercase hexadecimal
/// digits. The hasher itself is left as it was.
#[verifier::external_body]
pub(crate) fn hasher_hex(state: &blake2b_simd::State) -> (hex: String)
    ensures
        hex@ == blake2b_hex(absorbed(*state)),
        is_hex_digest(hex@),
{
    state.finalize().to_hex().to_string()
}

} // verus!
