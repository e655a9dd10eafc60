//! The decisions of the sync driver: where to resume, and which heights seed
//! the difficulty context. Fetching and storing are left to the caller.
use crate::pow::PowError;
use vstd::prelude::*;

verus! {

/// Number of headers below a height that seed its difficulty context.
pub const CONTEXT_BLOCKS: u32 = 28;

/// Errors of the sync driver's own decisions.
#[derive(Debug, Clone, Copy, PartialEq, Eq, Structural)]
pub enum SyncError {
    /// Fewer than `CONTEXT_BLOCKS` headers lie below the height.
    InsufficientContext { height: u32 },
}

/// A proof-of-work failure met while syncing.
#[derive(Debug, Clone, Copy, PartialEq, Eq, Structural)]
pub struct VerifyPowError(pub PowError);

impl VerifyPowError {
    /// Wraps a proof-of-work failure.
    pub fn from_pow(e: PowError) -> (r: Self)
        ensures
            r.0 == e,
    {
        VerifyPowError(e)
    }
}

/// The height at which syncing resumes: one past the stored tip, or
/// `start_height` when nothing is stored; none when the tip is the last height.
pub fn resume_height(stored_tip: Option<u32>, start_height: u32) -> (r: Option<u32>)
    ensures
        r == (match stored_tip {
            Some(t) => if t < u32::MAX {
                Some((t + 1) as u32)
            } else {
                None
            },
            None => Some(start_height),
        }),
{
    match stored_tip {
        Some(tip) => tip.checked_add(1),
        None => Some(start_height),
    }
}

/// The heights `[lo, hi)` of the headers that seed the context for verifying
/// the header at `height`: the `CONTEXT_BLOCKS` heights just below it.
pub fn context_range(height: u32) -> (r: Result<(u32, u32), SyncError>)
    ensures
        height < 28 ==> r == Err::<(u32, u32), SyncError>(SyncError::InsufficientContext { height }),
        height >= 28 ==> r == Ok::<(u32, u32), SyncError>(((height - 28) as u32, height)),
{
    if height < CONTEXT_BLOCKS {
        return Err(SyncError::InsufficientContext { height });
    }
    Ok((height - CONTEXT_BLOCKS, height))
}

/// The heights `[lo, hi)` to fetch upstream before `stored` persisted headers
/// whose lowest height is `earliest`, so that together they make
/// `CONTEXT_BLOCKS` headers (fewer where height zero is reached).
pub fn context_gap(earliest: u32, stored: usize) -> (r: (u32, u32))
    ensures
        stored >= 28 ==> r == (earliest, earliest),
        stored < 28 ==> r == ((if earliest >= 28 - stored { earliest - (28 - stored) } else { 0 }) as u32, earliest),
{
    if stored >= CONTEXT_BLOCKS as usize {
        return (earliest, earliest);
    }
    let need = (CONTEXT_BLOCKS as usize - stored) as u32;
    (earliest.saturating_sub(need), earliest)
}

/// Orders stored `(height, header)` records by ascending height.
pub fn sort_records_by_height(records: Vec<(u32, String)>) -> (r: Vec<(u32, String)>)
    ensures
        r@.to_multiset() == records@.to_multiset(),
        forall|i: int, j: int| 0 <= i < j < r@.len() ==> r@[i].0 <= r@[j].0,
{
    broadcast use vstd::seq_lib::group_to_multiset_ensures;

    let mut rest = records;
    let mut sorted: Vec<(u32, String)> = Vec::new();
    let ghost taken: Seq<(u32, String)> = Seq::empty();
    while rest.len() > 0
        invariant
            taken + rest@ == records@,
            sorted@.to_multiset() == taken.to_multiset(),
            forall|i: int, j: int| 0 <= i < j < sorted@.len() ==> sorted@[i].0 <= sorted@[j].0,
        decreases rest@.len(),
    {
        let ghost before_rest = rest@;
        let item = rest.remove(0);
        let mut pos: usize = 0;
        while pos < sorted.len() && sorted[pos].0 <= item.0
            invariant
                pos <= sorted@.len(),
                forall|t: int| 0 <= t < pos ==> sorted@[t].0 <= item.0,
            decreases sorted@.len() - pos,
        {
            pos = pos + 1;
        }
        let ghost before = sorted@;
        sorted.insert(pos, item);
        proof {
            assert(sorted@ == before.insert(pos as int, item));
            assert forall|a: int, b: int| 0 <= a < b < sorted@.len() implies sorted@[a].0
                <= sorted@[b].0 by {
                if b < pos {
                } else if b == pos {
                } else if a <= pos {
                    assert(before[pos as int].0 > item.0);
                    if b - 1 > pos {
                        assert(before[pos as int].0 <= before[b - 1].0);
                    }
                } else {
                    assert(before[a - 1].0 <= before[b - 1].0);
                }
            }
            vstd::seq_lib::to_multiset_insert(before, pos as int, item);
            vstd::seq_lib::to_multiset_build(taken, item);
            assert(taken.push(item) + rest@ =~= taken + before_rest);
            taken = taken.push(item);
        }
    }
    proof {
        assert(taken =~= records@);
    }
    sorted
}

} // verus!
