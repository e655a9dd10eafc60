//! The difficulty filter: a header hash against the target its `nBits` encodes.
use crate::target::{
    cmp_target, compact_of, compact_target, compact_truncated, fits_compact, le_value,
    lemma_compact_decode_truncates, lemma_le_value_bound, lemma_le_value_bytewise,
    lemma_le_value_injective, lemma_le_value_split, lemma_zero_le_value, pow256,
    target_from_nbits, Target,
};
use vstd::prelude::*;

verus! {

/// Errors that can occur during difficulty verification.
#[derive(Debug, Clone, Copy, PartialEq, Eq, Structural)]
pub enum DiffError {
    /// `nBits` decodes to a zero target.
    InvalidTarget,
    /// The target decoded from `nBits` is above the proof-of-work limit.
    TargetAbovePowLimit,
    /// The header hash is greater than the target.
    HashAboveTarget,
    /// Not enough prior headers are available for contextual difficulty.
    InsufficientContext,
    /// The header height does not immediately follow the context tip height.
    HeightMismatch { expected: u32, found: u32 },
    /// `nBits` does not match the contextual difficulty adjustment.
    BitsMismatch { expected: u32, found: u32 },
}

/// The mainnet proof-of-work limit `2^243 - 1`, little-endian.
pub open spec fn pow_limit_bytes() -> Seq<u8> {
    Seq::new(
        32,
        |j: int|
            if j < 30 {
                0xffu8
            } else if j == 30 {
                0x07u8
            } else {
                0u8
            },
    )
}

/// The proof-of-work limit as a number.
pub open spec fn pow_limit() -> nat {
    le_value(pow_limit_bytes())
}

/// The proof-of-work limit, little-endian.
pub fn pow_limit_le() -> (r: Target)
    ensures
        r@ == pow_limit_bytes(),
{
    let mut out = [0xffu8; 32];
    out[30] = 0x07;
    out[31] = 0;
    assert(out@ =~= pow_limit_bytes());
    out
}

/// The outcome of the difficulty filter for a little-endian header hash.
pub open spec fn filter_outcome(header_hash: Seq<u8>, n_bits: u32) -> Result<(), DiffError> {
    let target = le_value(compact_target(n_bits));
    if target == 0 {
        Err(DiffError::InvalidTarget)
    } else if target > pow_limit() {
        Err(DiffError::TargetAbovePowLimit)
    } else if le_value(header_hash) > target {
        Err(DiffError::HashAboveTarget)
    } else {
        Ok(())
    }
}

/// Verifies the difficulty filter `hash <= target(n_bits)`, with the target
/// nonzero and within the proof-of-work limit.
pub fn verify_difficulty_filter(header_hash: &[u8; 32], n_bits: u32) -> (r: Result<(), DiffError>)
    ensures
        r == filter_outcome(header_hash@, n_bits),
{
    let target_le = target_from_nbits(n_bits);
    let zero = [0u8; 32];
    proof {
        lemma_zero_le_value(zero@);
    }
    if let core::cmp::Ordering::Equal = cmp_target(&target_le, &zero) {
        return Err(DiffError::InvalidTarget);
    }
    let limit = pow_limit_le();
    if let core::cmp::Ordering::Greater = cmp_target(&target_le, &limit) {
        return Err(DiffError::TargetAbovePowLimit);
    }
    if let core::cmp::Ordering::Greater = cmp_target(header_hash, &target_le) {
        return Err(DiffError::HashAboveTarget);
    }
    Ok(())
}

/// The difficulty filter under its shorter name.
pub fn verify_difficulty(header_hash: &[u8; 32], n_bits: u32) -> (r: Result<(), DiffError>)
    ensures
        r == filter_outcome(header_hash@, n_bits),
{
    verify_difficulty_filter(header_hash, n_bits)
}

/// A target within the proof-of-work limit has a zero top byte.
proof fn lemma_within_limit_top_byte(t: Seq<u8>)
    requires
        t.len() == 32,
        le_value(t) <= pow_limit(),
    ensures
        t[31] == 0,
{
    let l = pow_limit_bytes();
    lemma_le_value_split(t, 31);
    lemma_le_value_split(l, 31);
    lemma_le_value_bound(l.subrange(0, 31));
    let ht = t.subrange(31, 32);
    let hl = l.subrange(31, 32);
    assert(le_value(ht) == le_value(ht.drop_last()) + (ht.last() as nat) * pow256(0));
    assert(le_value(hl) == le_value(hl.drop_last()) + (hl.last() as nat) * pow256(0));
    assert(pow256(0) == 1);
    assert(le_value(ht.drop_last()) == 0);
    assert(le_value(hl.drop_last()) == 0);
    assert(le_value(hl) == 0);
    let p = pow256(31);
    assert(le_value(t) >= p * (t[31] as nat)) by (nonlinear_arith)
        requires
            le_value(t) == le_value(t.subrange(0, 31)) + p * (t[31] as nat),
    ;
    assert(t[31] == 0) by (nonlinear_arith)
        requires
            le_value(t) >= p * (t[31] as nat),
            le_value(t) <= pow_limit(),
            pow_limit() < p,
    ;
}

/// Encoding a target within the proof-of-work limit in compact form and
/// decoding it again never raises it, and gives it back exactly when it is
/// representable with a 23-bit mantissa.
pub proof fn lemma_compact_round_down(t: Seq<u8>)
    requires
        t.len() == 32,
        le_value(t) <= pow_limit(),
    ensures
        le_value(compact_target(compact_of(t))) <= le_value(t),
        (le_value(compact_target(compact_of(t))) == le_value(t)) == fits_compact(t),
{
    lemma_within_limit_top_byte(t);
    lemma_compact_decode_truncates(t);
    let r = compact_truncated(t);
    lemma_le_value_bytewise(r, t);
    if fits_compact(t) {
        assert(r =~= t);
    }
    if le_value(r) == le_value(t) {
        lemma_le_value_injective(r, t);
        crate::target::lemma_byte_size_facts(t);
        assert forall|j: int| 0 <= j < crate::target::compact_cut(t) implies t[j] == 0 by {
            assert(r[j] == 0);
        }
    }
}

} // verus!
