//! Contextual difficulty: the expected `nBits` of the next header from a
//! sliding window of recent timestamps and targets.
use crate::filter::{pow_limit, pow_limit_le, DiffError};
use crate::target::{
    cmp_target, compact_of, compact_target, le_bytes, le_value, lemma_le_bytes_of_value,
    lemma_le_value_bound, lemma_le_value_prefix, lemma_le_value_suffix, lemma_pow256_pos,
    lemma_zero_le_value, pow256, target_from_nbits, target_modulus, target_to_nbits, Target,
};
use vstd::prelude::*;
use vstd::relations::{sorted_by, total_ordering};

verus! {

const POW_AVERAGING_WINDOW: usize = 17;

const POW_MEDIAN_BLOCK_SPAN: usize = 11;

const POW_DAMPING_FACTOR: i64 = 4;

const POW_TARGET_SPACING: i64 = 75;

const AVERAGING_WINDOW_TIMESPAN: i64 = 17 * POW_TARGET_SPACING;

/// `AVERAGING_WINDOW_TIMESPAN * (100 - 16) / 100`: the most a target may fall in one step.
const MIN_ACTUAL_TIMESPAN: i64 = 1071;

/// `AVERAGING_WINDOW_TIMESPAN * (100 + 32) / 100`: the most a target may rise in one step.
const MAX_ACTUAL_TIMESPAN: i64 = 1683;

/// Sliding window of header data needed for contextual difficulty.
///
/// Timestamps and `nBits` values of the most recent headers, oldest first; the
/// last of each describes the header at `tip_height`.
pub struct DifficultyContext {
    /// Height of the tip header described by this context.
    pub tip_height: u32,
    times: Vec<u32>,
    bits: Vec<u32>,
}

/// `s` with `x` appended, its oldest element dropped where that leaves more than `cap`.
pub open spec fn window_push(s: Seq<u32>, x: u32, cap: nat) -> Seq<u32> {
    if s.len() + 1 > cap {
        s.push(x).drop_first()
    } else {
        s.push(x)
    }
}

impl DifficultyContext {
    /// The height of the tip header.
    pub closed spec fn tip_view(&self) -> u32 {
        self.tip_height
    }

    /// The timestamps held, oldest first.
    pub closed spec fn times_view(&self) -> Seq<u32> {
        self.times@
    }

    /// The `nBits` values held, oldest first.
    pub closed spec fn bits_view(&self) -> Seq<u32> {
        self.bits@
    }

    /// At most 28 timestamps and 17 `nBits` values are held.
    pub open spec fn wf(&self) -> bool {
        &&& self.times_view().len() <= 28
        &&& self.bits_view().len() <= 17
    }

    /// Creates an empty context at the given tip height.
    pub fn new(tip_height: u32) -> (r: Self)
        ensures
            r.tip_view() == tip_height,
            r.times_view() == Seq::<u32>::empty(),
            r.bits_view() == Seq::<u32>::empty(),
            r.wf(),
    {
        DifficultyContext { tip_height, times: Vec::new(), bits: Vec::new() }
    }

    /// Appends a newly accepted header to the context. The window never holds
    /// more than 28 timestamps and 17 `nBits` values.
    pub fn push_header(&mut self, height: u32, n_time: u32, n_bits: u32)
        requires
            old(self).wf(),
        ensures
            final(self).wf(),
            final(self).tip_view() == height,
            final(self).times_view() == window_push(old(self).times_view(), n_time, 28),
            final(self).bits_view() == window_push(old(self).bits_view(), n_bits, 17),
            final(self).times_view().len() <= 28,
            final(self).bits_view().len() <= 17,
    {
        self.tip_height = height;
        self.times.push(n_time);
        if self.times.len() > POW_MEDIAN_BLOCK_SPAN + POW_AVERAGING_WINDOW {
            self.times.remove(0);
        }
        self.bits.push(n_bits);
        if self.bits.len() > POW_AVERAGING_WINDOW {
            self.bits.remove(0);
        }
        assert(self.times@ =~= window_push(old(self).times@, n_time, 28));
        assert(self.bits@ =~= window_push(old(self).bits@, n_bits, 17));
    }

    /// Number of timestamps held.
    pub fn times_len(&self) -> (r: usize)
        ensures
            r == self.times_view().len(),
    {
        self.times.len()
    }

    /// Number of `nBits` values held.
    pub fn bits_len(&self) -> (r: usize)
        ensures
            r == self.bits_view().len(),
    {
        self.bits.len()
    }
}

/// Adds two targets modulo `2^256`.
fn add_target(a: &Target, b: &Target) -> (r: Target)
    ensures
        le_value(r@) == (le_value(a@) + le_value(b@)) % target_modulus(),
{
    let mut out = [0u8; 32];
    let mut carry: u16 = 0;
    let mut i: usize = 0;
    while i < 32
        invariant
            i <= 32,
            carry <= 1,
            le_value(out@.subrange(0, i as int)) + (carry as nat) * pow256(i as nat) == le_value(
                a@.subrange(0, i as int),
            ) + le_value(b@.subrange(0, i as int)),
        decreases 32 - i,
    {
        let sum: u16 = a[i] as u16 + b[i] as u16 + carry;
        let ghost prev = out@;
        out[i] = sum as u8;
        let ghost c = carry;
        carry = sum >> 8u16;
        proof {
            assert(sum >> 8u16 == sum / 256 && (sum as u8) as nat == sum % 256) by (bit_vector);
            assert(out@.subrange(0, i as int) =~= prev.subrange(0, i as int));
            lemma_le_value_prefix(out@, i as int);
            lemma_le_value_prefix(a@, i as int);
            lemma_le_value_prefix(b@, i as int);
            let p = pow256(i as nat);
            assert(pow256((i + 1) as nat) == 256 * p);
            assert((sum % 256) * p + (sum / 256) * (256 * p) == sum * p) by (nonlinear_arith);
            assert(sum * p == (c as nat) * p + (a@[i as int] as nat) * p + (b@[i as int] as nat) * p)
                by (nonlinear_arith)
                requires
                    sum == c + a@[i as int] + b@[i as int],
            ;
        }
        i = i + 1;
    }
    proof {
        assert(out@.subrange(0, 32) =~= out@);
        assert(a@.subrange(0, 32) =~= a@);
        assert(b@.subrange(0, 32) =~= b@);
        lemma_le_value_bound(out@);
        vstd::arithmetic::div_mod::lemma_fundamental_div_mod_converse(
            (le_value(a@) + le_value(b@)) as int,
            target_modulus() as int,
            carry as int,
            le_value(out@) as int,
        );
    }
    out
}

/// Divides a target by a nonzero 32-bit value, rounding down.
fn div_target_u32(x: &Target, rhs: u32) -> (r: Target)
    requires
        rhs > 0,
    ensures
        le_value(r@) == le_value(x@) / (rhs as nat),
{
    let mut out = [0u8; 32];
    let mut rem: u64 = 0;
    let mut i: usize = 32;
    proof {
        assert(le_value(x@.subrange(32, 32)) == 0);
        assert(le_value(out@.subrange(32, 32)) == 0);
    }
    while i > 0
        invariant
            i <= 32,
            rhs > 0,
            rem < rhs,
            le_value(x@.subrange(i as int, 32)) == le_value(out@.subrange(i as int, 32)) * (
            rhs as nat) + rem,
        decreases i,
    {
        let j = i - 1;
        let xb = x[j];
        let cur: u64 = (rem << 8u64) | xb as u64;
        proof {
            assert((rem << 8u64) | xb as u64 == rem * 256 + xb) by (bit_vector)
                requires
                    rem < 0x1_0000_0000,
            ;
        }
        let q = cur / rhs as u64;
        let ghost prev = out@;
        proof {
            assert(q < 256) by (nonlinear_arith)
                requires
                    q == (cur as int) / (rhs as int),
                    cur == rem * 256 + x[j as int],
                    rem < rhs,
                    x[j as int] < 256,
                    rhs > 0,
            ;
        }
        rem = cur % rhs as u64;
        out[j] = q as u8;
        proof {
            assert(out@.subrange(i as int, 32) =~= prev.subrange(i as int, 32));
            lemma_le_value_suffix(x@, j as int);
            lemma_le_value_suffix(out@, j as int);
            let h = le_value(prev.subrange(i as int, 32));
            let c = cur as nat;
            assert(c == q * (rhs as nat) + rem) by {
                vstd::arithmetic::div_mod::lemma_fundamental_div_mod(c as int, rhs as int);
            }
            assert(x[j as int] + 256 * (h * rhs + (c - x[j as int]) / 256) == (q + 256 * h) * rhs
                + rem) by (nonlinear_arith)
                requires
                    c == q * rhs + rem,
                    (c - x[j as int]) / 256 * 256 == c - x[j as int],
            ;
        }
        i = j;
    }
    proof {
        assert(out@.subrange(0, 32) =~= out@);
        assert(x@.subrange(0, 32) =~= x@);
        vstd::arithmetic::div_mod::lemma_fundamental_div_mod_converse(
            le_value(x@) as int,
            rhs as int,
            le_value(out@) as int,
            rem as int,
        );
    }
    out
}

/// Multiplies a target by a 32-bit value modulo `2^256`.
fn mul_target_u32(x: &Target, rhs: u32) -> (r: Target)
    ensures
        le_value(r@) == (le_value(x@) * (rhs as nat)) % target_modulus(),
{
    let mut out = [0u8; 32];
    let mut carry: u64 = 0;
    let mut i: usize = 0;
    proof {
        assert(le_value(x@.subrange(0, 0)) == 0);
        assert(le_value(out@.subrange(0, 0)) == 0);
    }
    while i < 32
        invariant
            i <= 32,
            carry <= rhs,
            le_value(out@.subrange(0, i as int)) + (carry as nat) * pow256(i as nat) == le_value(
                x@.subrange(0, i as int),
            ) * (rhs as nat),
        decreases 32 - i,
    {
        proof {
            assert(x[i as int] as u64 * rhs as u64 + carry <= 256 * 0x1_0000_0000) by (nonlinear_arith)
                requires
                    x[i as int] < 256,
                    rhs < 0x1_0000_0000,
                    carry <= rhs,
            ;
        }
        let cur: u64 = x[i] as u64 * rhs as u64 + carry;
        let ghost prev = out@;
        out[i] = cur as u8;
        let ghost c = carry;
        carry = cur >> 8u64;
        proof {
            assert(cur >> 8u64 == cur / 256 && (cur as u8) as nat == cur % 256) by (bit_vector);
            assert(cur / 256 <= rhs) by (nonlinear_arith)
                requires
                    cur == x[i as int] * rhs + c,
                    x[i as int] < 256,
                    c <= rhs,
            ;
            assert(out@.subrange(0, i as int) =~= prev.subrange(0, i as int));
            lemma_le_value_prefix(out@, i as int);
            lemma_le_value_prefix(x@, i as int);
            let p = pow256(i as nat);
            let lx = le_value(x@.subrange(0, i as int));
            assert(pow256((i + 1) as nat) == 256 * p);
            assert((cur % 256) * p + (cur / 256) * (256 * p) == cur * p) by (nonlinear_arith);
            assert(cur * p == (c as nat) * p + (x@[i as int] as nat * rhs) * p) by (nonlinear_arith)
                requires
                    cur == c + x@[i as int] * rhs,
            ;
            assert((lx + (x@[i as int] as nat) * p) * rhs == lx * rhs + (x@[i as int] as nat * rhs) * p)
                by (nonlinear_arith);
        }
        i = i + 1;
    }
    proof {
        assert(out@.subrange(0, 32) =~= out@);
        assert(x@.subrange(0, 32) =~= x@);
        lemma_le_value_bound(out@);
        vstd::arithmetic::div_mod::lemma_fundamental_div_mod_converse(
            (le_value(x@) * (rhs as nat)) as int,
            target_modulus() as int,
            carry as int,
            le_value(out@) as int,
        );
    }
    out
}

/// The smaller of two targets.
fn min_target(a: &Target, b: &Target) -> (r: Target)
    ensures
        r == (if le_value(a@) > le_value(b@) { *b } else { *a }),
{
    if let core::cmp::Ordering::Greater = cmp_target(a, b) {
        *b
    } else {
        *a
    }
}

/// `<=` on 32-bit values.
pub open spec fn u32_leq() -> spec_fn(u32, u32) -> bool {
    |a: u32, b: u32| a <= b
}

/// The middle element of `s` once sorted ascending.
pub open spec fn median(s: Seq<u32>) -> u32 {
    s.sort_by(u32_leq())[s.len() as int / 2]
}

/// The median of the last 11 timestamps less the median of the 11 that
/// start 28 back, with zero read as `AVERAGING_WINDOW_TIMESPAN`; zero when
/// fewer than 28 timestamps are held.
pub open spec fn actual_span(times: Seq<u32>) -> int {
    let len = times.len() as int;
    if len < 28 {
        0
    } else {
        let recent = median(times.subrange(len - 11, len));
        let past = median(times.subrange(len - 28, len - 17));
        let span = recent - past;
        if span == 0 {
            1275
        } else {
            span
        }
    }
}

/// Integer division rounding toward zero.
pub open spec fn trunc_div(x: int, d: int) -> int {
    if x >= 0 {
        x / d
    } else {
        -((-x) / d)
    }
}

/// The timespan moved a quarter of the way from the averaging window's timespan.
pub open spec fn damped_span(span: int) -> int {
    1275 + trunc_div(span - 1275, 4)
}

/// `v` clipped to `[MIN_ACTUAL_TIMESPAN, MAX_ACTUAL_TIMESPAN]`.
pub open spec fn clamped_span(v: int) -> int {
    if v < 1071 {
        1071
    } else if v > 1683 {
        1683
    } else {
        v
    }
}

/// The sum of the targets that the `nBits` values decode to.
pub open spec fn target_sum(bits: Seq<u32>) -> nat
    decreases bits.len(),
{
    if bits.len() == 0 {
        0
    } else {
        target_sum(bits.drop_last()) + le_value(compact_target(bits.last()))
    }
}

/// The sum (modulo `2^256`) of the last 17 targets, divided by 17.
pub open spec fn mean_target_value(bits: Seq<u32>) -> nat {
    let len = bits.len() as int;
    let start = if len > 17 {
        len - 17
    } else {
        0
    };
    (target_sum(bits.subrange(start, len)) % target_modulus()) / 17
}

/// The next target: the mean target divided by `AVERAGING_WINDOW_TIMESPAN`,
/// times the damped and clamped timespan, at most the proof-of-work limit.
pub open spec fn next_target_value(times: Seq<u32>, bits: Seq<u32>) -> nat {
    let span = clamped_span(damped_span(actual_span(times)));
    let scaled = (mean_target_value(bits) / 1275) * (span as nat);
    if scaled > pow_limit() {
        pow_limit()
    } else {
        scaled
    }
}

/// `tip + 1`, wrapping to zero.
pub open spec fn next_height(tip: u32) -> u32 {
    if tip < u32::MAX {
        (tip + 1) as u32
    } else {
        0
    }
}

/// The expected `nBits` of the header at `header_height` after a context
/// with these timestamps, `nBits` values and tip height.
pub open spec fn expected_outcome(times: Seq<u32>, bits: Seq<u32>, tip: u32, header_height: u32) -> Result<u32, DiffError> {
    if times.len() < 28 || bits.len() < 17 {
        Err(DiffError::InsufficientContext)
    } else if header_height as int != tip as int + 1 {
        Err(DiffError::HeightMismatch { expected: next_height(tip), found: header_height })
    } else {
        Ok(compact_of(le_bytes(next_target_value(times, bits))))
    }
}

/// The outcome of checking `header_bits` against the contextual difficulty.
pub open spec fn difficulty_outcome(times: Seq<u32>, bits: Seq<u32>, tip: u32, header_height: u32, header_bits: u32) -> Result<(), DiffError> {
    match expected_outcome(times, bits, tip, header_height) {
        Err(e) => Err(e),
        Ok(expected) => if header_bits == expected {
            Ok(())
        } else {
            Err(DiffError::BitsMismatch { expected, found: header_bits })
        },
    }
}

/// `<=` on 32-bit values is a total order.
proof fn lemma_u32_leq_total()
    ensures
        total_ordering(u32_leq()),
{
    assert(vstd::relations::reflexive(u32_leq()));
    assert(vstd::relations::antisymmetric(u32_leq()));
    assert(vstd::relations::transitive(u32_leq()));
    assert(vstd::relations::strongly_connected(u32_leq()));
}

/// The median of 11 values.
fn median_11(values: &[u32]) -> (r: u32)
    requires
        values@.len() == 11,
    ensures
        r == median(values@),
{
    broadcast use vstd::seq_lib::group_to_multiset_ensures;

    let mut tmp: Vec<u32> = Vec::with_capacity(POW_MEDIAN_BLOCK_SPAN);
    let mut i: usize = 0;
    while i < POW_MEDIAN_BLOCK_SPAN
        invariant
            values@.len() == 11,
            i <= 11,
            tmp@.len() == i,
            sorted_by(tmp@, u32_leq()),
            tmp@.to_multiset() == values@.subrange(0, i as int).to_multiset(),
        decreases 11 - i,
    {
        let x = values[i];
        let mut pos: usize = 0;
        while pos < tmp.len() && tmp[pos] <= x
            invariant
                pos <= tmp@.len(),
                forall|t: int| 0 <= t < pos ==> tmp@[t] <= x,
            decreases tmp@.len() - pos,
        {
            pos = pos + 1;
        }
        let ghost before = tmp@;
        tmp.insert(pos, x);
        proof {
            assert forall|a: int, b: int| 0 <= a < b < tmp@.len() implies #[trigger] u32_leq()(
                tmp@[a],
                tmp@[b],
            ) by {
                if b < pos {
                    assert(u32_leq()(before[a], before[b]));
                } else if b == pos {
                } else if a < pos {
                    assert(before[pos as int] > x);
                    if b - 1 > pos {
                        assert(u32_leq()(before[pos as int], before[b - 1]));
                    }
                } else if a == pos {
                    assert(before[pos as int] > x);
                    if b - 1 > pos {
                        assert(u32_leq()(before[pos as int], before[b - 1]));
                    }
                } else {
                    assert(u32_leq()(before[a - 1], before[b - 1]));
                }
            }
            assert(values@.subrange(0, i + 1) =~= values@.subrange(0, i as int).push(x));
            assert(tmp@ == before.insert(pos as int, x));
            vstd::seq_lib::to_multiset_insert(before, pos as int, x);
            vstd::seq_lib::to_multiset_build(values@.subrange(0, i as int), x);
        }
        i = i + 1;
    }
    proof {
        assert(values@.subrange(0, 11) =~= values@);
        lemma_u32_leq_total();
        values@.lemma_sort_by_ensures(u32_leq());
        vstd::seq_lib::lemma_sorted_unique(tmp@, values@.sort_by(u32_leq()), u32_leq());
    }
    tmp[POW_MEDIAN_BLOCK_SPAN / 2]
}

/// The median-time span of the context's timestamps.
fn actual_timespan(ctx: &DifficultyContext) -> (r: i64)
    ensures
        r == actual_span(ctx.times_view()),
{
    let len = ctx.times.len();
    if len < POW_MEDIAN_BLOCK_SPAN + POW_AVERAGING_WINDOW {
        return 0;
    }
    let recent_start = len - POW_MEDIAN_BLOCK_SPAN;
    let recent = vstd::slice::slice_subrange(ctx.times.as_slice(), recent_start, len);
    let recent_median = median_11(recent);
    let past_start = len - POW_MEDIAN_BLOCK_SPAN - POW_AVERAGING_WINDOW;
    let past_end = past_start + POW_MEDIAN_BLOCK_SPAN;
    let past = vstd::slice::slice_subrange(ctx.times.as_slice(), past_start, past_end);
    let past_median = median_11(past);
    let span = recent_median as i64 - past_median as i64;
    if span == 0 {
        AVERAGING_WINDOW_TIMESPAN
    } else {
        span
    }
}

/// The damped median-time span.
fn actual_timespan_damped(ctx: &DifficultyContext) -> (r: i64)
    ensures
        r == damped_span(actual_span(ctx.times_view())),
{
    let ats = actual_timespan(ctx);
    let diff = ats - AVERAGING_WINDOW_TIMESPAN;
    let q = if diff >= 0 {
        diff / POW_DAMPING_FACTOR
    } else {
        -((-diff) / POW_DAMPING_FACTOR)
    };
    AVERAGING_WINDOW_TIMESPAN + q
}

/// Clips a timespan to `[MIN_ACTUAL_TIMESPAN, MAX_ACTUAL_TIMESPAN]`.
fn clamp_timespan(value: i64) -> (r: i64)
    ensures
        r == clamped_span(value as int),
{
    if value < MIN_ACTUAL_TIMESPAN {
        MIN_ACTUAL_TIMESPAN
    } else if value > MAX_ACTUAL_TIMESPAN {
        MAX_ACTUAL_TIMESPAN
    } else {
        value
    }
}

/// The mean of the last 17 targets (their sum taken modulo `2^256`).
fn mean_target(ctx: &DifficultyContext) -> (r: Target)
    ensures
        le_value(r@) == mean_target_value(ctx.bits_view()),
{
    let len = ctx.bits.len();
    let start = if len > POW_AVERAGING_WINDOW {
        len - POW_AVERAGING_WINDOW
    } else {
        0
    };
    let mut acc = [0u8; 32];
    let mut i: usize = start;
    proof {
        assert(le_value(acc@) == 0) by {
            assert(acc@ =~= Seq::new(32, |j: int| 0u8));
            lemma_zero_le_value(acc@);
        }
        assert(target_sum(ctx.bits@.subrange(start as int, start as int)) == 0);
        lemma_pow256_pos(32);
        vstd::arithmetic::div_mod::lemma_small_mod(0, target_modulus());
    }
    while i < len
        invariant
            len == ctx.bits@.len(),
            start <= i <= len,
            le_value(acc@) == target_sum(ctx.bits@.subrange(start as int, i as int)) % target_modulus(),
        decreases len - i,
    {
        let t = target_from_nbits(ctx.bits[i]);
        let ghost before = acc@;
        acc = add_target(&acc, &t);
        proof {
            let sub = ctx.bits@.subrange(start as int, i + 1);
            assert(sub.drop_last() =~= ctx.bits@.subrange(start as int, i as int));
            lemma_pow256_pos(32);
            vstd::arithmetic::div_mod::lemma_add_mod_noop(
                target_sum(ctx.bits@.subrange(start as int, i as int)) as int,
                le_value(t@) as int,
                target_modulus() as int,
            );
            lemma_le_value_bound(t@);
            vstd::arithmetic::div_mod::lemma_small_mod(le_value(t@), target_modulus());
        }
        i = i + 1;
    }
    div_target_u32(&acc, POW_AVERAGING_WINDOW as u32)
}

/// The next target for the context.
fn threshold(ctx: &DifficultyContext) -> (r: Target)
    ensures
        le_value(r@) == next_target_value(ctx.times_view(), ctx.bits_view()),
{
    let ats = actual_timespan_damped(ctx);
    let clamped = clamp_timespan(ats);
    assert(1071 <= clamped <= 1683);
    let ats_bounded = clamped as u32;
    let mean = mean_target(ctx);
    let per_second = div_target_u32(&mean, AVERAGING_WINDOW_TIMESPAN as u32);
    let scaled = mul_target_u32(&per_second, ats_bounded);
    proof {
        // Dividing first keeps the product within 256 bits.
        let m = target_modulus();
        let sum = target_sum(ctx.bits@.subrange(
            if ctx.bits@.len() > 17 { ctx.bits@.len() - 17 } else { 0 },
            ctx.bits@.len() as int,
        ));
        lemma_pow256_pos(32);
        let mv = mean_target_value(ctx.bits@);
        let q = le_value(per_second@);
        vstd::arithmetic::div_mod::lemma_mod_bound(sum as int, m as int);
        assert(mv * 17 < m) by (nonlinear_arith)
            requires
                mv == (sum % m) / 17,
                sum % m < m,
        ;
        assert(q * 1275 <= mv) by (nonlinear_arith)
            requires
                q == mv / 1275,
        ;
        assert(q * (ats_bounded as nat) <= q * 1683) by (nonlinear_arith)
            requires
                ats_bounded <= 1683,
        ;
        assert(q * (ats_bounded as nat) < m);
        vstd::arithmetic::div_mod::lemma_small_mod(q * (ats_bounded as nat), m);
    }
    let limit = pow_limit_le();
    min_target(&scaled, &limit)
}

/// Computes the expected `nBits` for the header at `header_height`.
pub fn expected_nbits(ctx: &DifficultyContext, header_height: u32) -> (r: Result<u32, DiffError>)
    ensures
        r == expected_outcome(ctx.times_view(), ctx.bits_view(), ctx.tip_view(), header_height),
{
    if ctx.times.len() < POW_MEDIAN_BLOCK_SPAN + POW_AVERAGING_WINDOW || ctx.bits.len()
        < POW_AVERAGING_WINDOW {
        return Err(DiffError::InsufficientContext);
    }
    if header_height as u64 != ctx.tip_height as u64 + 1 {
        let expected = if ctx.tip_height < u32::MAX {
            ctx.tip_height + 1
        } else {
            0
        };
        return Err(DiffError::HeightMismatch { expected, found: header_height });
    }
    let thr = threshold(ctx);
    proof {
        lemma_le_bytes_of_value(thr@);
    }
    Ok(target_to_nbits(&thr))
}

/// Verifies that `header_bits` matches the contextual difficulty.
pub fn verify_difficulty(ctx: &DifficultyContext, header_height: u32, header_bits: u32) -> (r: Result<(), DiffError>)
    ensures
        r == difficulty_outcome(ctx.times_view(), ctx.bits_view(), ctx.tip_view(), header_height, header_bits),
{
    let expected = expected_nbits(ctx, header_height)?;
    if header_bits != expected {
        return Err(DiffError::BitsMismatch { expected, found: header_bits });
    }
    Ok(())
}

} // verus!
