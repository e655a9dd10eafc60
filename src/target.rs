//! 256-bit little-endian targets and the compact `nBits` encoding.
use vstd::prelude::*;

verus! {

/// A 256-bit unsigned integer stored as 32 little-endian bytes.
pub type Target = [u8; 32];

/// `256^e`.
pub open spec fn pow256(e: nat) -> nat
    decreases e,
{
    if e == 0 {
        1
    } else {
        256 * pow256((e - 1) as nat)
    }
}

/// The number denoted by a little-endian byte string.
pub open spec fn le_value(s: Seq<u8>) -> nat
    decreases s.len(),
{
    if s.len() == 0 {
        0
    } else {
        le_value(s.drop_last()) + (s.last() as nat) * pow256((s.len() - 1) as nat)
    }
}

/// The byte at position `j`, or zero outside the string.
pub open spec fn byte_at(s: Seq<u8>, j: int) -> u8 {
    if 0 <= j < s.len() {
        s[j]
    } else {
        0
    }
}

/// Byte `j` (least significant first) of the 23-bit mantissa of `nbits`.
pub open spec fn mantissa_byte(nbits: u32, j: int) -> u8 {
    if j == 0 {
        (nbits & 0xff) as u8
    } else if j == 1 {
        ((nbits >> 8u32) & 0xff) as u8
    } else if j == 2 {
        ((nbits >> 16u32) & 0x7f) as u8
    } else {
        0
    }
}

/// The target that a compact value denotes: the mantissa placed in the low three
/// bytes and moved up by `exponent - 3` byte positions (down where that is
/// negative), bytes moved past either end being lost; zero when the mantissa is zero.
pub open spec fn compact_target(nbits: u32) -> Seq<u8> {
    let shift = (nbits >> 24u32) as int - 3;
    Seq::new(
        32,
        |j: int|
            if nbits & 0x7f_ffff == 0 {
                0u8
            } else {
                mantissa_byte(nbits, j - shift)
            },
    )
}

/// The number of bytes up to and including the most significant nonzero one.
pub open spec fn byte_size(s: Seq<u8>) -> nat
    decreases s.len(),
{
    if s.len() == 0 {
        0
    } else if s.last() != 0 {
        s.len()
    } else {
        byte_size(s.drop_last())
    }
}

/// The three most significant bytes from the top nonzero one down, as a
/// big-endian number, padded with zero bytes below the end of the string.
pub open spec fn top_mantissa(s: Seq<u8>) -> u32 {
    let size = byte_size(s) as int;
    ((byte_at(s, size - 1) as u32) << 16u32) | ((byte_at(s, size - 2) as u32) << 8u32) | (
    byte_at(s, size - 3) as u32)
}

/// The compact encoding of a target: its byte size in the high byte and the
/// top three bytes below it, shifted down one byte (and the size raised by one)
/// where the top mantissa bit would otherwise be set; zero for a zero target.
pub open spec fn compact_of(s: Seq<u8>) -> u32 {
    let size = byte_size(s);
    let m = top_mantissa(s);
    if size == 0 {
        0
    } else if m & 0x80_0000 != 0 {
        (((size + 1) as u32) << 24u32) | ((m >> 8u32) & 0x7f_ffff)
    } else {
        ((size as u32) << 24u32) | m
    }
}

/// Compares two targets as 256-bit unsigned integers.
pub fn cmp_target(a: &Target, b: &Target) -> (r: core::cmp::Ordering)
    ensures
        (r == core::cmp::Ordering::Less) == (le_value(a@) < le_value(b@)),
        (r == core::cmp::Ordering::Equal) == (le_value(a@) == le_value(b@)),
        (r == core::cmp::Ordering::Greater) == (le_value(a@) > le_value(b@)),
{
    let mut i: usize = 32;
    while i > 0
        invariant
            i <= 32,
            forall|j: int| i <= j < 32 ==> a@[j] == b@[j],
        decreases i,
    {
        let x = a[i - 1];
        let y = b[i - 1];
        if x != y {
            proof {
                lemma_compare_at(a@, b@, (i - 1) as int);
            }
            if x < y {
                return core::cmp::Ordering::Less;
            } else {
                return core::cmp::Ordering::Greater;
            }
        }
        i = i - 1;
    }
    assert(a@ =~= b@);
    core::cmp::Ordering::Equal
}

/// Powers of 256 are positive.
pub(crate) proof fn lemma_pow256_pos(e: nat)
    ensures
        pow256(e) > 0,
    decreases e,
{
    if e > 0 {
        lemma_pow256_pos((e - 1) as nat);
    }
}

/// `256^(a + b) = 256^a * 256^b`.
pub(crate) proof fn lemma_pow256_add(a: nat, b: nat)
    ensures
        pow256(a + b) == pow256(a) * pow256(b),
    decreases b,
{
    if b > 0 {
        lemma_pow256_add(a, (b - 1) as nat);
        assert((a + b - 1) as nat == a + (b - 1) as nat);
        assert(pow256(a + b) == 256 * pow256((a + b - 1) as nat));
        assert(pow256(a) * pow256(b) == pow256(a) * (256 * pow256((b - 1) as nat)));
        assert(pow256(a) * (256 * pow256((b - 1) as nat)) == 256 * (pow256(a) * pow256(
            (b - 1) as nat,
        ))) by (nonlinear_arith);
    } else {
        assert(pow256(b) == 1);
        assert(a + b == a);
    }
}

/// A little-endian number is below `256^len`.
pub(crate) proof fn lemma_le_value_bound(s: Seq<u8>)
    ensures
        le_value(s) < pow256(s.len()),
    decreases s.len(),
{
    if s.len() > 0 {
        let n = (s.len() - 1) as nat;
        lemma_le_value_bound(s.drop_last());
        lemma_pow256_pos(n);
        let p = pow256(n);
        let v = le_value(s.drop_last());
        let l = s.last() as nat;
        assert(v + l * p < 256 * p) by (nonlinear_arith)
            requires
                v < p,
                l <= 255,
        ;
    }
}

/// Splitting a little-endian number at byte `i`.
pub(crate) proof fn lemma_le_value_split(s: Seq<u8>, i: int)
    requires
        0 <= i <= s.len(),
    ensures
        le_value(s) == le_value(s.subrange(0, i)) + pow256(i as nat) * le_value(
            s.subrange(i, s.len() as int),
        ),
    decreases s.len(),
{
    if i == s.len() {
        assert(s.subrange(0, i) =~= s);
        assert(le_value(s.subrange(i, s.len() as int)) == 0);
    } else {
        let t = s.drop_last();
        lemma_le_value_split(t, i);
        assert(t.subrange(0, i) =~= s.subrange(0, i));
        let hi = s.subrange(i, s.len() as int);
        assert(hi.drop_last() =~= t.subrange(i, t.len() as int));
        assert(hi.last() == s.last());
        let n = (s.len() - 1 - i) as nat;
        lemma_pow256_add(i as nat, n);
        assert(i as nat + n == (s.len() - 1) as nat);
        let p = pow256(i as nat);
        let q = pow256(n);
        let vh = le_value(t.subrange(i, t.len() as int));
        let l = s.last() as nat;
        assert(le_value(hi) == vh + l * q);
        assert(le_value(s) == le_value(t) + l * pow256((s.len() - 1) as nat));
        assert(p * (vh + l * q) == p * vh + l * (p * q)) by (nonlinear_arith);
    }
}

/// Two numbers that agree above byte `i` and differ at it compare as that byte does.
proof fn lemma_compare_at(a: Seq<u8>, b: Seq<u8>, i: int)
    requires
        a.len() == b.len(),
        0 <= i < a.len(),
        a[i] != b[i],
        forall|j: int| i < j < a.len() ==> a[j] == b[j],
    ensures
        (a[i] < b[i]) ==> le_value(a) < le_value(b),
        (a[i] > b[i]) ==> le_value(a) > le_value(b),
{
    let n = a.len() as int;
    lemma_le_value_split(a, i);
    lemma_le_value_split(b, i);
    let ha = a.subrange(i, n);
    let hb = b.subrange(i, n);
    lemma_le_value_split(ha, 1);
    lemma_le_value_split(hb, 1);
    assert(ha.subrange(1, ha.len() as int) =~= hb.subrange(1, hb.len() as int));
    lemma_le_value_single(ha.subrange(0, 1));
    lemma_le_value_single(hb.subrange(0, 1));
    lemma_le_value_bound(a.subrange(0, i));
    lemma_le_value_bound(b.subrange(0, i));
    let p = pow256(i as nat);
    let la = le_value(a.subrange(0, i));
    let lb = le_value(b.subrange(0, i));
    let h = pow256(1) * le_value(ha.subrange(1, ha.len() as int));
    let x = a[i] as nat;
    let y = b[i] as nat;
    assert(x < y ==> la + p * (x + h) < lb + p * (y + h)) by (nonlinear_arith)
        requires
            la < p,
            lb >= 0,
    ;
    assert(x > y ==> la + p * (x + h) > lb + p * (y + h)) by (nonlinear_arith)
        requires
            lb < p,
            la >= 0,
    ;
}

/// Decodes a compact `nBits` value into a target.
pub fn target_from_nbits(nbits: u32) -> (r: Target)
    ensures
        r@ == compact_target(nbits),
{
    let mant = nbits & 0x7f_ffff;
    let exp = nbits >> 24u32;
    let mut out = [0u8; 32];
    if mant == 0 {
        assert(out@ =~= compact_target(nbits));
        return out;
    }
    let m0 = (mant & 0xff) as u8;
    let m1 = ((mant >> 8u32) & 0xff) as u8;
    let m2 = ((mant >> 16u32) & 0xff) as u8;
    assert(m0 == mantissa_byte(nbits, 0) && m1 == mantissa_byte(nbits, 1) && m2
        == mantissa_byte(nbits, 2)) by (bit_vector)
        requires
            mant == nbits & 0x7f_ffff,
            m0 == (mant & 0xff) as u8,
            m1 == ((mant >> 8u32) & 0xff) as u8,
            m2 == ((mant >> 16u32) & 0xff) as u8,
    ;
    let shift: i64 = exp as i64 - 3;
    let mut i: usize = 0;
    while i < 32
        invariant
            i <= 32,
            shift == (nbits >> 24u32) as int - 3,
            nbits & 0x7f_ffff != 0,
            m0 == mantissa_byte(nbits, 0),
            m1 == mantissa_byte(nbits, 1),
            m2 == mantissa_byte(nbits, 2),
            forall|j: int| 0 <= j < i ==> out@[j] == compact_target(nbits)[j],
        decreases 32 - i,
    {
        let d: i64 = i as i64 - shift;
        let b: u8 = if d == 0 {
            m0
        } else if d == 1 {
            m1
        } else if d == 2 {
            m2
        } else {
            0
        };
        out[i] = b;
        i = i + 1;
    }
    assert(out@ =~= compact_target(nbits));
    out
}

/// `byte_size` is the position just above the top nonzero byte.
proof fn lemma_byte_size(s: Seq<u8>, size: int)
    requires
        0 <= size <= s.len(),
        forall|j: int| size <= j < s.len() ==> s[j] == 0,
        size == 0 || s[size - 1] != 0,
    ensures
        byte_size(s) == size,
    decreases s.len(),
{
    if s.len() > size {
        lemma_byte_size(s.drop_last(), size);
    }
}

/// Encodes a target in the compact `nBits` form.
pub fn target_to_nbits(t: &Target) -> (r: u32)
    ensures
        r == compact_of(t@),
{
    let mut size: usize = 32;
    while size > 0 && t[size - 1] == 0
        invariant
            size <= 32,
            forall|j: int| size <= j < 32 ==> t@[j] == 0,
        decreases size,
    {
        size = size - 1;
    }
    proof {
        lemma_byte_size(t@, size as int);
    }
    if size == 0 {
        return 0;
    }
    let b1 = t[size - 1] as u32;
    let b2: u32 = if size >= 2 {
        t[size - 2] as u32
    } else {
        0
    };
    let b3: u32 = if size >= 3 {
        t[size - 3] as u32
    } else {
        0
    };
    let mant: u32 = (b1 << 16u32) | (b2 << 8u32) | b3;
    assert(mant == top_mantissa(t@));
    let sz = size as u32;
    if mant & 0x80_0000 != 0 {
        (((sz + 1) as u32) << 24u32) | ((mant >> 8u32) & 0x7f_ffff)
    } else {
        assert(mant & 0x7f_ffff == mant) by (bit_vector)
            requires
                mant == (b1 << 16u32) | (b2 << 8u32) | b3,
                b1 < 256,
                b2 < 256,
                b3 < 256,
                mant & 0x80_0000 == 0,
        ;
        (sz << 24u32) | mant
    }
}

/// `2^256`, the modulus of 256-bit arithmetic.
pub open spec fn target_modulus() -> nat {
    pow256(32)
}

/// The 32 little-endian bytes of `v` (taken modulo `2^256`).
pub open spec fn le_bytes(v: nat) -> Seq<u8> {
    Seq::new(32, |j: int| ((v / pow256(j as nat)) % 256) as u8)
}

/// Appending a byte at the top of a little-endian prefix.
pub(crate) proof fn lemma_le_value_prefix(s: Seq<u8>, i: int)
    requires
        0 <= i < s.len(),
    ensures
        le_value(s.subrange(0, i + 1)) == le_value(s.subrange(0, i)) + (s[i] as nat) * pow256(
            i as nat,
        ),
{
    assert(s.subrange(0, i + 1).drop_last() =~= s.subrange(0, i));
}

/// A one-byte string denotes its byte.
proof fn lemma_le_value_single(u: Seq<u8>)
    requires
        u.len() == 1,
    ensures
        le_value(u) == u[0] as nat,
{
    assert(le_value(u.drop_last()) == 0);
    assert(pow256(0) == 1);
    assert(le_value(u) == le_value(u.drop_last()) + (u.last() as nat) * pow256(0));
}

/// Prepending a byte at the bottom of a little-endian suffix.
pub(crate) proof fn lemma_le_value_suffix(s: Seq<u8>, i: int)
    requires
        0 <= i < s.len(),
    ensures
        le_value(s.subrange(i, s.len() as int)) == (s[i] as nat) + 256 * le_value(
            s.subrange(i + 1, s.len() as int),
        ),
{
    let t = s.subrange(i, s.len() as int);
    lemma_le_value_split(t, 1);
    assert(t.subrange(1, t.len() as int) =~= s.subrange(i + 1, s.len() as int));
    assert(pow256(1) == 256) by {
        assert(pow256(0) == 1);
    }
    lemma_le_value_single(t.subrange(0, 1));
}

/// A byte string is the little-endian bytes of its own value.
pub(crate) proof fn lemma_le_bytes_of_value(s: Seq<u8>)
    requires
        s.len() == 32,
    ensures
        le_bytes(le_value(s)) == s,
{
    assert forall|j: int| 0 <= j < 32 implies le_bytes(le_value(s))[j] == s[j] by {
        lemma_le_value_split(s, j);
        let hi = s.subrange(j, 32);
        lemma_le_value_suffix(s, j);
        lemma_le_value_bound(s.subrange(0, j));
        lemma_pow256_pos(j as nat);
        let p = pow256(j as nat);
        let lo = le_value(s.subrange(0, j));
        let h = le_value(s.subrange(j + 1, 32));
        let b = s[j] as nat;
        assert(le_value(s) == lo + p * (b + 256 * h));
        assert(le_value(s) / p == b + 256 * h) by {
            assert(lo + p * (b + 256 * h) == (b + 256 * h) * p + lo) by (nonlinear_arith);
            vstd::arithmetic::div_mod::lemma_fundamental_div_mod_converse(
                le_value(s) as int,
                p as int,
                (b + 256 * h) as int,
                lo as int,
            );
        }
        vstd::arithmetic::div_mod::lemma_fundamental_div_mod_converse(
            (b + 256 * h) as int,
            256,
            h as int,
            b as int,
        );
    }
    assert(le_bytes(le_value(s)) =~= s);
}

/// Two 32-byte strings with the same value are equal.
pub(crate) proof fn lemma_le_value_injective(a: Seq<u8>, b: Seq<u8>)
    requires
        a.len() == 32,
        b.len() == 32,
        le_value(a) == le_value(b),
    ensures
        a == b,
{
    lemma_le_bytes_of_value(a);
    lemma_le_bytes_of_value(b);
}

/// An all-zero byte string denotes zero.
pub(crate) proof fn lemma_zero_le_value(s: Seq<u8>)
    requires
        forall|j: int| 0 <= j < s.len() ==> s[j] == 0,
    ensures
        le_value(s) == 0,
    decreases s.len(),
{
    if s.len() > 0 {
        lemma_zero_le_value(s.drop_last());
    }
}

/// The properties that define `byte_size`.
pub(crate) proof fn lemma_byte_size_facts(s: Seq<u8>)
    ensures
        byte_size(s) <= s.len(),
        byte_size(s) > 0 ==> s[byte_size(s) - 1] != 0,
        forall|j: int| byte_size(s) <= j < s.len() ==> s[j] == 0,
    decreases s.len(),
{
    if s.len() > 0 && s.last() == 0 {
        lemma_byte_size_facts(s.drop_last());
        assert forall|j: int| byte_size(s) <= j < s.len() implies s[j] == 0 by {
            if j < s.len() - 1 {
                assert(s.drop_last()[j] == s[j]);
            }
        }
    }
}

/// Position of the lowest byte that the compact form of `t` keeps (may be negative).
pub open spec fn compact_cut(t: Seq<u8>) -> int {
    let size = byte_size(t) as int;
    if top_mantissa(t) & 0x80_0000 != 0 {
        size - 2
    } else {
        size - 3
    }
}

/// `t` with the bytes below those its compact form keeps set to zero.
pub open spec fn compact_truncated(t: Seq<u8>) -> Seq<u8> {
    Seq::new(32, |j: int| if j >= compact_cut(t) { t[j] } else { 0u8 })
}

/// `t` is representable with a 23-bit mantissa: every byte below those the
/// compact form keeps is zero.
pub open spec fn fits_compact(t: Seq<u8>) -> bool {
    forall|j: int| 0 <= j < compact_cut(t) ==> t[j] == 0
}

/// The compact form of top bytes `b1 b2 b3` (top bit of `b1` clear) and its mantissa bytes.
proof fn lemma_compact_bits_plain(sz: u32, b1: u32, b2: u32, b3: u32)
    requires
        1 <= sz <= 31,
        1 <= b1 < 128,
        b2 < 256,
        b3 < 256,
    ensures
        ({
            let m = (b1 << 16u32) | (b2 << 8u32) | b3;
            let nbits = (sz << 24u32) | m;
            &&& m & 0x80_0000 == 0
            &&& nbits >> 24u32 == sz
            &&& nbits & 0x7f_ffff != 0
            &&& (nbits & 0xff) as u8 == b3 as u8
            &&& ((nbits >> 8u32) & 0xff) as u8 == b2 as u8
            &&& ((nbits >> 16u32) & 0x7f) as u8 == b1 as u8
        }),
{
    assert({
        let m = (b1 << 16u32) | (b2 << 8u32) | b3;
        let nbits = (sz << 24u32) | m;
        &&& m & 0x80_0000 == 0
        &&& nbits >> 24u32 == sz
        &&& nbits & 0x7f_ffff != 0
        &&& (nbits & 0xff) as u8 == b3 as u8
        &&& ((nbits >> 8u32) & 0xff) as u8 == b2 as u8
        &&& ((nbits >> 16u32) & 0x7f) as u8 == b1 as u8
    }) by (bit_vector)
        requires
            1 <= sz <= 31,
            1 <= b1 < 128,
            b2 < 256,
            b3 < 256,
    ;
}

/// The compact form of top bytes `b1 b2 b3` (top bit of `b1` set) and its mantissa bytes.
proof fn lemma_compact_bits_shifted(sz: u32, b1: u32, b2: u32, b3: u32)
    requires
        1 <= sz <= 31,
        128 <= b1 < 256,
        b2 < 256,
        b3 < 256,
    ensures
        ({
            let m = (b1 << 16u32) | (b2 << 8u32) | b3;
            let nbits = (((sz + 1) as u32) << 24u32) | ((m >> 8u32) & 0x7f_ffff);
            &&& m & 0x80_0000 != 0
            &&& nbits >> 24u32 == sz + 1
            &&& nbits & 0x7f_ffff != 0
            &&& (nbits & 0xff) as u8 == b2 as u8
            &&& ((nbits >> 8u32) & 0xff) as u8 == b1 as u8
            &&& ((nbits >> 16u32) & 0x7f) as u8 == 0
        }),
{
    assert({
        let m = (b1 << 16u32) | (b2 << 8u32) | b3;
        let nbits = (((sz + 1) as u32) << 24u32) | ((m >> 8u32) & 0x7f_ffff);
        &&& m & 0x80_0000 != 0
        &&& nbits >> 24u32 == sz + 1
        &&& nbits & 0x7f_ffff != 0
        &&& (nbits & 0xff) as u8 == b2 as u8
        &&& ((nbits >> 8u32) & 0xff) as u8 == b1 as u8
        &&& ((nbits >> 16u32) & 0x7f) as u8 == 0
    }) by (bit_vector)
        requires
            1 <= sz <= 31,
            128 <= b1 < 256,
            b2 < 256,
            b3 < 256,
    ;
}

/// Decoding the compact form of a target whose top byte is zero gives the
/// target with the bytes below the kept ones cleared.
pub(crate) proof fn lemma_compact_decode_truncates(t: Seq<u8>)
    requires
        t.len() == 32,
        t[31] == 0,
    ensures
        compact_target(compact_of(t)) == compact_truncated(t),
{
    lemma_byte_size_facts(t);
    let sz = byte_size(t);
    if sz == 0 {
        assert(compact_of(t) == 0);
        assert((0u32 << 16u32) | (0u32 << 8u32) | 0u32 == 0) by (bit_vector);
        assert(top_mantissa(t) == 0);
        assert(0u32 & 0x80_0000 == 0) by (bit_vector);
        assert(0u32 & 0x7f_ffff == 0) by (bit_vector);
        assert(compact_cut(t) == -3);
        assert(compact_target(0) =~= compact_truncated(t));
    } else {
        assert(sz <= 31) by {
            if sz == 32 {
                assert(t[31] != 0);
            }
        }
        let b1 = byte_at(t, sz - 1) as u32;
        let b2 = byte_at(t, sz - 2) as u32;
        let b3 = byte_at(t, sz - 3) as u32;
        let nbits = compact_of(t);
        if b1 < 128 {
            lemma_compact_bits_plain(sz as u32, b1, b2, b3);
            assert(nbits == ((sz as u32) << 24u32) | top_mantissa(t));
            assert forall|j: int| 0 <= j < 32 implies compact_target(nbits)[j]
                == compact_truncated(t)[j] by {
                let d = j - (sz - 3);
                if d == 0 {
                    assert(mantissa_byte(nbits, d) == b3 as u8);
                } else if d == 1 {
                    assert(mantissa_byte(nbits, d) == b2 as u8);
                } else if d == 2 {
                    assert(mantissa_byte(nbits, d) == b1 as u8);
                }
            }
        } else {
            lemma_compact_bits_shifted(sz as u32, b1, b2, b3);
            assert(nbits == (((sz + 1) as u32) << 24u32) | ((top_mantissa(t) >> 8u32) & 0x7f_ffff));
            assert forall|j: int| 0 <= j < 32 implies compact_target(nbits)[j]
                == compact_truncated(t)[j] by {
                let d = j - (sz - 2);
                if d == 0 {
                    assert(mantissa_byte(nbits, d) == b2 as u8);
                } else if d == 1 {
                    assert(mantissa_byte(nbits, d) == b1 as u8);
                } else if d == 2 {
                    assert(mantissa_byte(nbits, d) == 0);
                }
            }
        }
        assert(compact_target(nbits) =~= compact_truncated(t));
    }
}

/// A byte string no larger than another byte by byte has no larger value.
pub(crate) proof fn lemma_le_value_bytewise(a: Seq<u8>, b: Seq<u8>)
    requires
        a.len() == b.len(),
        forall|j: int| 0 <= j < a.len() ==> a[j] <= b[j],
    ensures
        le_value(a) <= le_value(b),
    decreases a.len(),
{
    if a.len() > 0 {
        lemma_le_value_bytewise(a.drop_last(), b.drop_last());
        let p = pow256((a.len() - 1) as nat);
        assert((a.last() as nat) * p <= (b.last() as nat) * p) by (nonlinear_arith)
            requires
                a.last() <= b.last(),
        ;
    }
}

/// Re-encoding a canonical compact value gives it back: a mantissa with its top
/// bit clear and a nonzero leading byte, and an exponent from 3 to 32.
pub proof fn lemma_compact_round_trip(nbits: u32)
    requires
        nbits & 0x80_0000 == 0,
        (nbits >> 16u32) & 0xff != 0,
        3 <= (nbits >> 24u32) <= 32,
    ensures
        compact_of(compact_target(nbits)) == nbits,
{
    let t = compact_target(nbits);
    let e = (nbits >> 24u32) as int;
    let s = e - 3;
    let m0 = (nbits & 0xff) as u32;
    let m1 = ((nbits >> 8u32) & 0xff) as u32;
    let m2 = ((nbits >> 16u32) & 0x7f) as u32;
    assert(nbits & 0x7f_ffff != 0 && m2 != 0 && m2 < 128 && m0 < 256 && m1 < 256) by (bit_vector)
        requires
            nbits & 0x80_0000 == 0,
            (nbits >> 16u32) & 0xff != 0,
            m0 == (nbits & 0xff) as u32,
            m1 == ((nbits >> 8u32) & 0xff) as u32,
            m2 == ((nbits >> 16u32) & 0x7f) as u32,
    ;
    assert(t[s + 2] == m2 as u8);
    lemma_byte_size(t, e);
    assert(byte_at(t, e - 1) as u32 == m2);
    assert(byte_at(t, e - 2) as u32 == m1);
    assert(byte_at(t, e - 3) as u32 == m0);
    let ee = e as u32;
    assert(((ee << 24u32) | ((m2 << 16u32) | (m1 << 8u32) | m0)) == nbits && ((m2 << 16u32) | (
    m1 << 8u32) | m0) & 0x80_0000 == 0) by (bit_vector)
        requires
            ee == nbits >> 24u32,
            nbits & 0x80_0000 == 0,
            m0 == (nbits & 0xff) as u32,
            m1 == ((nbits >> 8u32) & 0xff) as u32,
            m2 == ((nbits >> 16u32) & 0x7f) as u32,
    ;
}

} // verus!
