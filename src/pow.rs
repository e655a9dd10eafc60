//! Proof-of-work verification of a whole header: Equihash, the difficulty
//! filter and, with a context, the contextual difficulty.
use crate::context::{difficulty_outcome, verify_difficulty, window_push, DifficultyContext};
use crate::equihash::{equihash_outcome, le32, push_le32, verify_equihash_solution, Error};
use crate::filter::{filter_outcome, verify_difficulty_filter, DiffError};
use vstd::prelude::*;

verus! {

/// The fields of a block header that proof-of-work verification reads, and
/// the double-SHA256 hash of the whole serialized header (little-endian).
pub struct Header {
    pub version: i32,
    pub prev_block: [u8; 32],
    pub merkle_root: [u8; 32],
    pub final_sapling_root: [u8; 32],
    pub time: u32,
    pub bits: u32,
    pub nonce: [u8; 32],
    pub solution: Vec<u8>,
    pub hash: [u8; 32],
}

/// Combined Equihash and difficulty verification error.
#[derive(Debug, Clone, Copy, PartialEq, Eq, Structural)]
pub enum PowError {
    Equihash(Error),
    Difficulty(DiffError),
    ContextDifficulty(DiffError),
}

/// The 140 bytes bound into Equihash: the header up to and including the nonce.
pub open spec fn powheader(h: Header) -> Seq<u8> {
    le32(h.version as u32) + h.prev_block@ + h.merkle_root@ + h.final_sapling_root@ + le32(h.time)
        + le32(h.bits) + h.nonce@
}

/// The outcome of Equihash and the difficulty filter on a header.
pub open spec fn pow_outcome(h: Header) -> Result<(), PowError> {
    match equihash_outcome(200, 9, powheader(h), h.solution@) {
        Err(k) => Err(PowError::Equihash(Error(k))),
        Ok(()) => match filter_outcome(h.hash@, h.bits) {
            Err(e) => Err(PowError::Difficulty(e)),
            Ok(()) => Ok(()),
        },
    }
}

/// The outcome of full verification of a header at `height` after a context
/// with these timestamps, `nBits` values and tip height.
pub open spec fn pow_context_outcome(h: Header, height: u32, times: Seq<u32>, bits: Seq<u32>, tip: u32) -> Result<(), PowError> {
    match pow_outcome(h) {
        Err(e) => Err(e),
        Ok(()) => match difficulty_outcome(times, bits, tip, height, h.bits) {
            Err(e) => Err(PowError::ContextDifficulty(e)),
            Ok(()) => Ok(()),
        },
    }
}

/// Appends 32 bytes.
fn extend_bytes(v: &mut Vec<u8>, b: &[u8; 32])
    ensures
        final(v)@ == old(v)@ + b@,
{
    let mut i: usize = 0;
    while i < 32
        invariant
            i <= 32,
            v@ == old(v)@ + b@.subrange(0, i as int),
        decreases 32 - i,
    {
        v.push(b[i]);
        i = i + 1;
        assert(b@.subrange(0, i as int) =~= b@.subrange(0, i - 1).push(b@[i - 1]));
    }
    assert(b@.subrange(0, 32) =~= b@);
}

/// Rebuilds the 140-byte Equihash input of a header.
pub fn powheader_bytes(header: &Header) -> (r: Vec<u8>)
    ensures
        r@ == powheader(*header),
        r@.len() == 140,
{
    let mut out: Vec<u8> = Vec::with_capacity(140);
    push_le32(&mut out, header.version as u32);
    extend_bytes(&mut out, &header.prev_block);
    extend_bytes(&mut out, &header.merkle_root);
    extend_bytes(&mut out, &header.final_sapling_root);
    push_le32(&mut out, header.time);
    push_le32(&mut out, header.bits);
    extend_bytes(&mut out, &header.nonce);
    assert(out@ =~= powheader(*header));
    out
}

/// Verifies both the Equihash solution and the difficulty filter of a header.
pub fn verify_pow(header: &Header) -> (r: Result<(), PowError>)
    ensures
        r == pow_outcome(*header),
{
    let powheader = powheader_bytes(header);
    if let Err(e) = verify_equihash_solution(powheader.as_slice(), header.solution.as_slice()) {
        return Err(PowError::Equihash(e));
    }
    match verify_difficulty_filter(&header.hash, header.bits) {
        Err(e) => Err(PowError::Difficulty(e)),
        Ok(()) => Ok(()),
    }
}

/// Verifies Equihash, the difficulty filter and the contextual difficulty of
/// the header at `height`; on success appends it to the context, on failure
/// leaves the context as it was.
pub fn verify_pow_with_context(header: &Header, height: u32, ctx: &mut DifficultyContext) -> (r: Result<(), PowError>)
    requires
        old(ctx).wf(),
    ensures
        r == pow_context_outcome(
            *header,
            height,
            old(ctx).times_view(),
            old(ctx).bits_view(),
            old(ctx).tip_view(),
        ),
        final(ctx).wf(),
        r is Ok ==> {
            &&& final(ctx).tip_view() == height
            &&& final(ctx).times_view() == window_push(old(ctx).times_view(), header.time, 28)
            &&& final(ctx).bits_view() == window_push(old(ctx).bits_view(), header.bits, 17)
        },
        r is Err ==> {
            &&& final(ctx).tip_view() == old(ctx).tip_view()
            &&& final(ctx).times_view() == old(ctx).times_view()
            &&& final(ctx).bits_view() == old(ctx).bits_view()
        },
{
    verify_pow(header)?;
    if let Err(e) = verify_difficulty(ctx, height, header.bits) {
        return Err(PowError::ContextDifficulty(e));
    }
    ctx.push_header(height, header.time, header.bits);
    Ok(())
}

} // verus!
