//! Equihash solution verification.
//!
//! A minimal solution is decoded into `2^k` indices; each index selects an
//! `n`-bit slice of a personalised BLAKE2b digest of the header; the slices are
//! merged pairwise up a balanced tree, each pair having to collide on a prefix,
//! to be ordered by first index and to share no index; the root must be zero.
use vstd::arithmetic::power2::pow2;
use vstd::prelude::*;

verus! {

/// Equihash parameters `(n, k)`.
#[derive(Clone, Copy)]
pub struct Params {
    n: u32,
    k: u32,
}

/// The conditions on `(n, k)` that the parameters must meet.
pub open spec fn valid_params(n: u32, k: u32) -> bool {
    &&& n % 8 == 0
    &&& k >= 3
    &&& k < n
    &&& (n as int) % (k as int + 1) == 0
}

/// Collision length in bits: `n / (k + 1)`.
pub open spec fn collision_bits(n: u32, k: u32) -> nat {
    (n as int / (k as int + 1)) as nat
}

/// Collision length rounded up to whole bytes.
pub open spec fn collision_bytes(n: u32, k: u32) -> nat {
    (collision_bits(n, k) + 7) / 8
}

/// Number of indices served by one BLAKE2b digest.
pub open spec fn indices_per_hash(n: u32) -> nat {
    (512int / (n as int)) as nat
}

/// Length in bytes of each BLAKE2b digest.
pub open spec fn digest_len(n: u32) -> nat {
    indices_per_hash(n) * (n as nat) / 8
}

/// Length in bytes of a minimal solution: `2^k` digits of `collision_bits + 1` bits.
pub open spec fn solution_len(n: u32, k: u32) -> nat {
    (pow2(k as nat) * (collision_bits(n, k) + 1)) / 8
}

/// Valid parameters that this implementation handles: digests no wider than
/// BLAKE2b's, collision digits of 8 to 24 bits, and at most `2^20` indices.
pub open spec fn supported_params(n: u32, k: u32) -> bool {
    &&& valid_params(n, k)
    &&& n <= 512
    &&& 8 <= collision_bits(n, k) <= 24
    &&& k <= 20
}

impl Params {
    /// The `n` these parameters were made with.
    pub closed spec fn n_spec(self) -> u32 {
        self.n
    }

    /// The `k` these parameters were made with.
    pub closed spec fn k_spec(self) -> u32 {
        self.k
    }

    /// The parameters meet `valid_params`.
    #[verifier::type_invariant]
    closed spec fn inv(self) -> bool {
        valid_params(self.n, self.k)
    }

    /// Constructs validated parameters.
    pub fn new(n: u32, k: u32) -> (r: Option<Self>)
        ensures
            r.is_some() == valid_params(n, k),
            r matches Some(p) ==> p.n_spec() == n && p.k_spec() == k,
    {
        if n % 8 == 0 && k >= 3 && k < n && n % (k + 1) == 0 {
            Some(Params { n, k })
        } else {
            None
        }
    }

    /// `n`.
    pub fn n(&self) -> (r: u32)
        ensures
            r == self.n_spec(),
    {
        self.n
    }

    /// `k`.
    pub fn k(&self) -> (r: u32)
        ensures
            r == self.k_spec(),
    {
        self.k
    }

    /// Number of indices represented per BLAKE2b digest.
    fn indices_per_hash_output(&self) -> (r: u32)
        requires
            supported_params(self.n_spec(), self.k_spec()),
        ensures
            r == indices_per_hash(self.n_spec()),
            r >= 1,
    {
        assert(512u32 / self.n >= 1) by (nonlinear_arith)
            requires
                8 <= self.n <= 512,
        ;
        512 / self.n
    }

    /// Digest length for the BLAKE2b personalisation of these parameters.
    fn hash_output(&self) -> (r: u8)
        requires
            supported_params(self.n_spec(), self.k_spec()),
        ensures
            r == digest_len(self.n_spec()),
            1 <= r <= 64,
    {
        let iph = self.indices_per_hash_output();
        assert(iph * self.n <= 512 && iph * self.n >= 8) by (nonlinear_arith)
            requires
                iph == 512int / (self.n as int),
                8 <= self.n <= 512,
        ;
        (iph * self.n / 8) as u8
    }

    /// Collision length in bits.
    fn collision_bit_length(&self) -> (r: usize)
        ensures
            r == collision_bits(self.n_spec(), self.k_spec()),
            r <= 0x4000_0000,
    {
        proof {
            use_type_invariant(self);
            assert((self.n as int) / (self.k as int + 1) <= 0x4000_0000) by (nonlinear_arith)
                requires
                    self.k >= 3,
            ;
        }
        (self.n / (self.k + 1)) as usize
    }

    /// Collision length rounded up to whole bytes.
    fn collision_byte_length(&self) -> (r: usize)
        ensures
            r == collision_bytes(self.n_spec(), self.k_spec()),
    {
        (self.collision_bit_length() + 7) / 8
    }
}

/// Error wrapper indicating why verification failed.
#[derive(Debug, Clone, Copy, PartialEq, Eq, Structural)]
pub struct Error(pub Kind);

/// Specific failure reasons during verification.
#[derive(Debug, Clone, Copy, PartialEq, Eq, Structural)]
pub enum Kind {
    /// Invalid `(n, k)` parameters or solution length.
    InvalidParams,
    /// Leading collision bytes did not match for a pair of siblings.
    Collision,
    /// Left subtree did not precede the right subtree.
    OutOfOrder,
    /// Duplicate index encountered across siblings.
    DuplicateIdxs,
    /// Final root bytes (after reductions) are not all zero.
    NonZeroRootHash,
}

/// The number that a big-endian byte string denotes.
pub open spec fn be_value(s: Seq<u8>) -> nat
    decreases s.len(),
{
    if s.len() == 0 {
        0
    } else {
        be_value(s.drop_last()) * 256 + s.last() as nat
    }
}

/// Number of bytes of a bit stream that the first `d + 1` digits of
/// `bit_len` bits occupy.
pub open spec fn digit_end(bit_len: nat, d: nat) -> nat {
    ((d + 1) * bit_len + 7) / 8
}

/// Digit `d` of the big-endian stream `s` cut into `bit_len`-bit digits: bits
/// `d * bit_len` to `(d + 1) * bit_len` counted from the most significant bit
/// of `s[0]`, read from the bytes up to the one that holds its last bit.
pub open spec fn digit(s: Seq<u8>, bit_len: nat, d: nat) -> u32 {
    let e = digit_end(bit_len, d);
    ((be_value(s.subrange(0, e as int)) / pow2((8 * e - (d + 1) * bit_len) as nat)) % pow2(
        bit_len,
    )) as u32
}

/// The big-endian value of the last (at most four) bytes of `s[0..i]`.
spec fn window(s: Seq<u8>, i: int) -> u32
    decreases i,
{
    if i <= 0 {
        0
    } else {
        (window(s, i - 1) << 8u32) | (s[i - 1] as u32)
    }
}

/// `2^bit_len - 1` as a 32-bit mask.
spec fn low_mask(bit_len: nat) -> u32 {
    ((1u32 << (bit_len as u32)) - 1) as u32
}

/// The window is the value of the prefix modulo `2^32`.
proof fn lemma_window_value(s: Seq<u8>, i: int)
    requires
        0 <= i <= s.len(),
    ensures
        window(s, i) as nat == be_value(s.subrange(0, i)) % pow2(32),
    decreases i,
{
    vstd::arithmetic::power2::lemma2_to64();
    let m = pow2(32) as int;
    if i == 0 {
        assert(be_value(s.subrange(0, 0)) == 0);
    } else {
        lemma_window_value(s, i - 1);
        let w = window(s, i - 1);
        let x = s[i - 1];
        assert(((w << 8u32) | (x as u32)) as u64 == ((w as u64) * 256 + x as u64) % 0x1_0000_0000)
            by (bit_vector);
        assert(s.subrange(0, i).drop_last() =~= s.subrange(0, i - 1));
        let b = be_value(s.subrange(0, i - 1)) as int;
        assert(be_value(s.subrange(0, i)) == b * 256 + x);
        vstd::arithmetic::div_mod::lemma_mul_mod_noop_left(b, 256, m);
        vstd::arithmetic::div_mod::lemma_add_mod_noop((b % m) * 256, x as int, m);
        vstd::arithmetic::div_mod::lemma_add_mod_noop(b * 256, x as int, m);
    }
}

/// A digit is read from the four-byte window that ends with its last bit.
proof fn lemma_digit_window(s: Seq<u8>, bit_len: nat, d: nat)
    requires
        8 <= bit_len <= 25,
        (d + 1) * bit_len <= 8 * s.len(),
    ensures
        digit(s, bit_len, d) == (window(s, digit_end(bit_len, d) as int) >> ((8 * digit_end(
            bit_len,
            d,
        ) - (d + 1) * bit_len) as u32)) & low_mask(bit_len),
{
    let e = digit_end(bit_len, d);
    let sh = (8 * e - (d + 1) * bit_len) as nat;
    assert(sh < 8);
    assert(e <= s.len());
    let w = window(s, e as int);
    let v = be_value(s.subrange(0, e as int)) as int;
    lemma_window_value(s, e as int);
    vstd::arithmetic::power2::lemma2_to64();
    vstd::bits::lemma_u32_shr_is_div(w, sh as u32);
    vstd::bits::lemma_u32_pow2_no_overflow(bit_len);
    vstd::bits::lemma_u32_shl_is_mul(1, bit_len as u32);
    let y = w >> (sh as u32);
    vstd::bits::lemma_u32_low_bits_mask_is_mod(y, bit_len);
    assert(low_mask(bit_len) == vstd::bits::low_bits_mask(bit_len) as u32);
    let a = pow2(sh) as int;
    let c = pow2((32 - sh) as nat) as int;
    vstd::arithmetic::power2::lemma_pow2_adds(sh, (32 - sh) as nat);
    vstd::arithmetic::power2::lemma_pow2_pos(sh);
    vstd::arithmetic::power2::lemma_pow2_pos((32 - sh) as nat);
    vstd::arithmetic::power2::lemma_pow2_pos(bit_len);
    vstd::arithmetic::div_mod::lemma_mod_breakdown(v, a, c);
    let q = (v / a) % c;
    vstd::arithmetic::div_mod::lemma_mod_bound(v, a);
    vstd::arithmetic::div_mod::lemma_fundamental_div_mod_converse(v % (a * c), a, q, v % a);
    let r = (32 - sh - bit_len) as nat;
    vstd::arithmetic::power2::lemma_pow2_adds(bit_len, r);
    vstd::arithmetic::power2::lemma_pow2_pos(r);
    vstd::arithmetic::div_mod::lemma_mod_mod(v / a, pow2(bit_len) as int, pow2(r) as int);
    assert(bit_len + r == 32 - sh);
}

/// Number of whole `bit_len`-bit digits in `s`.
pub open spec fn digit_count(s: Seq<u8>, bit_len: nat) -> nat {
    8 * s.len() / bit_len
}

/// Bytes per expanded digit: the digit's own bytes and `byte_pad` zero bytes before them.
pub open spec fn expand_width(bit_len: nat, byte_pad: nat) -> nat {
    (bit_len + 7) / 8 + byte_pad
}

/// The stream `s` cut into `bit_len`-bit digits, each written big-endian over
/// `expand_width` bytes; a tail too short for a whole digit gives zero bytes.
pub open spec fn expanded(s: Seq<u8>, bit_len: nat, byte_pad: nat) -> Seq<u8> {
    let w = expand_width(bit_len, byte_pad);
    Seq::new(
        8 * w * s.len() / bit_len,
        |p: int|
            {
                let d = p / (w as int);
                let x = p % (w as int);
                if d < digit_count(s, bit_len) && x >= byte_pad {
                    ((digit(s, bit_len, d as nat) >> ((8 * (w - 1 - x)) as u32)) & 0xff) as u8
                } else {
                    0u8
                }
            },
    )
}

/// Shifting and masking in one step picks the same byte of a digit as
/// extracting the digit first.
proof fn lemma_extract_byte(acc: u32, a: u32, y: u32, m: u32)
    requires
        a + 8 * y < 32,
    ensures
        (acc >> (a + 8 * y) as u32) & ((m >> (8 * y) as u32) & 0xff) == (((acc >> a) & m) >> (8
            * y) as u32) & 0xff,
{
    assert((acc >> (a + 8 * y) as u32) & ((m >> (8 * y) as u32) & 0xff) == (((acc >> a) & m) >> (
    8 * y) as u32) & 0xff) by (bit_vector)
        requires
            a + 8 * y < 32,
    ;
}

/// `q <= c / b` whenever `q * b <= c`.
proof fn lemma_mul_le_div(q: nat, b: nat, c: nat)
    requires
        b > 0,
        q * b <= c,
    ensures
        q <= c / b,
{
    assert(q <= c / b) by (nonlinear_arith)
        requires
            b > 0,
            q * b <= c,
    ;
}

/// Unpacks a big-endian stream of `bit_len`-bit digits into bytes, each digit
/// taking `expand_width(bit_len, byte_pad)` bytes.
fn expand_array(vin: &[u8], bit_len: usize, byte_pad: usize) -> (r: Vec<u8>)
    requires
        8 <= bit_len <= 25,
        byte_pad <= 8,
        vin@.len() <= 0x100_0000,
    ensures
        r@ == expanded(vin@, bit_len as nat, byte_pad as nat),
{
    let out_width = (bit_len + 7) / 8 + byte_pad;
    assert(8 * out_width * vin.len() <= 8 * 12 * 0x100_0000) by (nonlinear_arith)
        requires
            out_width <= 12,
            vin.len() <= 0x100_0000,
    ;
    let out_len = 8 * out_width * vin.len() / bit_len;
    let mut vout: Vec<u8> = vec![0u8; out_len];
    assert(1u32 << bit_len as u32 >= 1) by (bit_vector)
        requires
            bit_len <= 25,
    ;
    let bit_len_mask: u32 = ((1u32 << bit_len as u32) - 1) as u32;
    let ghost w = out_width as nat;
    let ghost bl = bit_len as nat;
    let ghost spec_out = expanded(vin@, bl, byte_pad as nat);
    let ghost mut d: nat = 0;

    let mut acc_bits: usize = 0;
    let mut acc_value: u32 = 0;
    let mut j: usize = 0;
    let mut i: usize = 0;
    while i < vin.len()
        invariant
            8 <= bit_len <= 25,
            byte_pad <= 8,
            vin@.len() <= 0x100_0000,
            out_width == expand_width(bl, byte_pad as nat),
            w == out_width,
            bl == bit_len,
            spec_out == expanded(vin@, bl, byte_pad as nat),
            out_len == 8 * out_width * vin@.len() / (bit_len as int),
            bit_len_mask == low_mask(bl),
            vout@.len() == out_len,
            i <= vin@.len(),
            acc_value == window(vin@, i as int),
            j == d * w,
            acc_bits + d * bl == 8 * i,
            acc_bits < bit_len,
            forall|p: int| 0 <= p < j ==> vout@[p] == spec_out[p],
            forall|p: int| j <= p < out_len ==> vout@[p] == 0,
        decreases vin@.len() - i,
    {
        acc_value = (acc_value << 8u32) | (vin[i] as u32);
        acc_bits = acc_bits + 8;
        if acc_bits >= bit_len {
            acc_bits = acc_bits - bit_len;
            proof {
                // The digit `d` ends within byte `i`.
                assert((d + 1) * bl == d * bl + bl) by (nonlinear_arith);
                assert((d + 1) * bl <= 8 * (i + 1));
                assert(8 * i < (d + 1) * bl);
                assert(digit_end(bl, d) == i + 1) by (nonlinear_arith)
                    requires
                        (d + 1) * bl <= 8 * (i + 1),
                        8 * i < (d + 1) * bl,
                        (d + 1) * bl + 8 * i == 8 * i + (d + 1) * bl,
                ;
                lemma_mul_le_div(d + 1, bl, 8 * vin@.len());
                assert(d < digit_count(vin@, bl));
                assert((d + 1) * w <= out_len) by (nonlinear_arith)
                    requires
                        d + 1 <= 8 * vin@.len() / bl,
                        out_len == 8 * w * vin@.len() / bl,
                        bl > 0,
                        w > 0,
                {
                    lemma_mul_le_div((d + 1) * w, bl, 8 * w * vin@.len());
                }
                assert((d + 1) * w == j + w) by (nonlinear_arith)
                    requires
                        j == d * w,
                ;
            }
            let mut x = byte_pad;
            while x < out_width
                invariant
                    8 <= bit_len <= 25,
                    out_width == (bit_len + 7) / 8 + byte_pad,
                    acc_bits < 8,
                    byte_pad <= x <= out_width,
                    j + out_width <= out_len,
                    vout@.len() == out_len,
                    forall|p: int| 0 <= p < j ==> vout@[p] == spec_out[p],
                    forall|p: int| j <= p < j + byte_pad ==> vout@[p] == 0,
                    forall|p: int| j + x <= p < out_len ==> vout@[p] == 0,
                    forall|p: int|
                        j + byte_pad <= p < j + x ==> vout@[p] == ((((acc_value >> acc_bits as u32)
                            & bit_len_mask) >> ((8 * (out_width - 1 - (p - j))) as u32)) & 0xff) as u8,
                decreases out_width - x,
            {
                proof {
                    lemma_extract_byte(
                        acc_value,
                        acc_bits as u32,
                        (out_width - x - 1) as u32,
                        bit_len_mask,
                    );
                }
                vout[j + x] = ((acc_value >> (acc_bits + 8 * (out_width - x - 1)) as u32) & ((
                bit_len_mask >> (8 * (out_width - x - 1)) as u32) & 0xff)) as u8;
                x = x + 1;
            }
            proof {
                let dg = digit(vin@, bl, d);
                lemma_digit_window(vin@, bl, d);
                assert(dg == (acc_value >> acc_bits as u32) & bit_len_mask);
                assert forall|p: int| j <= p < j + w implies vout@[p] == spec_out[p] by {
                    let x = p - j;
                    vstd::arithmetic::div_mod::lemma_fundamental_div_mod_converse(
                        p,
                        w as int,
                        d as int,
                        x,
                    );
                }
                d = d + 1;
            }
            j = j + out_width;
        }
        i = i + 1;
    }
    proof {
        assert((d + 1) * bl == d * bl + bl) by (nonlinear_arith);
        assert(d * bl <= 8 * vin@.len());
        lemma_mul_le_div(d, bl, 8 * vin@.len());
        assert(d >= digit_count(vin@, bl)) by (nonlinear_arith)
            requires
                8 * vin@.len() < (d + 1) * bl,
                bl > 0,
        {
            if d < 8 * vin@.len() / bl {
                lemma_mul_le_div(d + 1, bl, 8 * vin@.len());
                assert((d + 1) * bl <= 8 * vin@.len());
            }
        }
        assert forall|p: int| j <= p < out_len implies spec_out[p] == 0 by {
            assert(p / (w as int) >= d) by (nonlinear_arith)
                requires
                    p >= d * w,
                    w > 0,
            ;
        }
    }
    assert(vout@ =~= spec_out);
    vout
}

/// The indices that a minimal solution encodes, one per digit of
/// `collision_bits + 1` bits.
pub open spec fn minimal_indices(minimal: Seq<u8>, n: u32, k: u32) -> Seq<u32> {
    let b = collision_bits(n, k) + 1;
    Seq::new(digit_count(minimal, b), |d: int| digit(minimal, b, d as nat))
}

/// A digit of `b` bits is below `2^b`.
proof fn lemma_digit_bound(s: Seq<u8>, b: nat, d: nat)
    requires
        8 <= b <= 25,
        d < digit_count(s, b),
    ensures
        digit(s, b, d) < (1u32 << (b as u32)),
{
    assert((d + 1) * b <= 8 * s.len()) by (nonlinear_arith)
        requires
            d < 8 * s.len() / b,
            b > 0,
    ;
    lemma_digit_window(s, b, d);
    let e = digit_end(b, d);
    let v = window(s, e as int) >> ((8 * e - (d + 1) * b) as u32);
    let bb = b as u32;
    assert(v & (((1u32 << bb) - 1) as u32) < (1u32 << bb)) by (bit_vector)
        requires
            1 <= bb <= 31,
    ;
}

/// Four big-endian bytes of an expanded digit give the digit back.
proof fn lemma_reassemble(dg: u32, b: u32, pad: nat)
    requires
        9 <= b <= 25,
        pad == 4 - (b + 7) / 8,
        dg < (1u32 << b),
    ensures
        ((if 0 >= pad { ((dg >> 24u32) & 0xff) as u8 } else { 0u8 }) as u32) << 24u32 | ((if 1
            >= pad { ((dg >> 16u32) & 0xff) as u8 } else { 0u8 }) as u32) << 16u32 | ((if 2
            >= pad { ((dg >> 8u32) & 0xff) as u8 } else { 0u8 }) as u32) << 8u32 | (((dg
            >> 0u32) & 0xff) as u8 as u32) == dg,
{
    if pad == 0 {
        assert((((dg >> 24u32) & 0xff) as u8 as u32) << 24u32 | (((dg >> 16u32) & 0xff) as u8
            as u32) << 16u32 | (((dg >> 8u32) & 0xff) as u8 as u32) << 8u32 | (((dg >> 0u32)
            & 0xff) as u8 as u32) == dg) by (bit_vector);
    } else if pad == 1 {
        assert(dg < 0x100_0000) by (bit_vector)
            requires
                dg < (1u32 << b),
                b <= 24,
        ;
        assert((0u8 as u32) << 24u32 | (((dg >> 16u32) & 0xff) as u8 as u32) << 16u32 | (((dg
            >> 8u32) & 0xff) as u8 as u32) << 8u32 | (((dg >> 0u32) & 0xff) as u8 as u32) == dg)
            by (bit_vector)
            requires
                dg < 0x100_0000,
        ;
    } else {
        assert(dg < 0x1_0000) by (bit_vector)
            requires
                dg < (1u32 << b),
                b <= 16,
        ;
        assert((0u8 as u32) << 24u32 | (0u8 as u32) << 16u32 | (((dg >> 8u32) & 0xff) as u8
            as u32) << 8u32 | (((dg >> 0u32) & 0xff) as u8 as u32) == dg) by (bit_vector)
            requires
                dg < 0x1_0000,
        ;
    }
}

/// With `k >= 3`, a minimal solution of the right length holds exactly `2^k` digits:
/// its bit length is `2^k * (collision_bits + 1)`.
proof fn lemma_solution_digits(n: u32, k: u32)
    requires
        supported_params(n, k),
    ensures
        8 * solution_len(n, k) == pow2(k as nat) * (collision_bits(n, k) + 1),
{
    let b = collision_bits(n, k) + 1;
    vstd::arithmetic::power2::lemma_pow2_adds(3, (k - 3) as nat);
    vstd::arithmetic::power2::lemma2_to64();
    let q = pow2((k - 3) as nat);
    assert(pow2(k as nat) == 8 * q);
    assert((8 * q * b) / 8 == q * b) by (nonlinear_arith);
    assert(8 * (q * b) == 8 * q * b) by (nonlinear_arith);
}

/// Decodes a minimal solution into its `2^k` indices.
pub fn indices_from_minimal(p: Params, minimal: &[u8]) -> (r: Option<Vec<u32>>)
    requires
        supported_params(p.n_spec(), p.k_spec()),
    ensures
        r.is_some() == (minimal@.len() == solution_len(p.n_spec(), p.k_spec())),
        r matches Some(v) ==> v@ == minimal_indices(minimal@, p.n_spec(), p.k_spec()) && v@.len()
            == pow2(p.k_spec() as nat),
{
    let ghost n = p.n_spec();
    let ghost k = p.k_spec();
    let c_bit_len = p.collision_bit_length();
    let kk = p.k();
    proof {
        vstd::bits::lemma_u64_pow2_no_overflow(k as nat);
        vstd::bits::lemma_u64_shl_is_mul(1, kk as u64);
        if k < 20 {
            vstd::arithmetic::power2::lemma_pow2_strictly_increases(k as nat, 20);
        }
        vstd::arithmetic::power2::lemma2_to64();
        assert(pow2(k as nat) * (c_bit_len + 1) <= 0x10_0000 * 25) by (nonlinear_arith)
            requires
                pow2(k as nat) <= 0x10_0000,
                c_bit_len <= 24,
        ;
    }
    let count: u64 = 1u64 << kk as u64;
    assert(count == pow2(k as nat));
    let expected: u64 = (count * (c_bit_len as u64 + 1)) / 8;
    if minimal.len() as u64 != expected {
        return None;
    }
    proof {
        lemma_solution_digits(n, k);
        assert(minimal@.len() <= 0x100_0000);
    }
    let b = c_bit_len + 1;
    let digit_bytes = (b + 7) / 8;
    let byte_pad = 4 - digit_bytes;
    let expanded_bytes = expand_array(minimal, b, byte_pad);
    let ghost dc = digit_count(minimal@, b as nat);
    proof {
        assert(dc == pow2(k as nat)) by (nonlinear_arith)
            requires
                8 * minimal@.len() == pow2(k as nat) * b,
                dc == 8 * minimal@.len() / (b as nat),
                b > 0,
        ;
        assert(expanded_bytes@.len() == 4 * dc) by (nonlinear_arith)
            requires
                expanded_bytes@.len() == 8 * 4 * minimal@.len() / (b as nat),
                8 * minimal@.len() == dc * b,
                b > 0,
        ;
    }
    let total = expanded_bytes.len() / 4;
    let mut ret: Vec<u32> = Vec::with_capacity(total);
    let mut d: usize = 0;
    while d < total
        invariant
            total == dc,
            dc <= 0x10_0000,
            expanded_bytes@ == expanded(minimal@, b as nat, byte_pad as nat),
            expanded_bytes@.len() == 4 * dc,
            9 <= b <= 25,
            byte_pad == 4 - (b + 7) / 8,
            dc == digit_count(minimal@, b as nat),
            d <= total,
            ret@.len() == d,
            forall|t: int| 0 <= t < d ==> ret@[t] == digit(minimal@, b as nat, t as nat),
        decreases total - d,
    {
        let c0 = expanded_bytes[4 * d];
        let c1 = expanded_bytes[4 * d + 1];
        let c2 = expanded_bytes[4 * d + 2];
        let c3 = expanded_bytes[4 * d + 3];
        let v: u32 = (c0 as u32) << 24u32 | (c1 as u32) << 16u32 | (c2 as u32) << 8u32 | (c3 as u32);
        proof {
            let dg = digit(minimal@, b as nat, d as nat);
            lemma_digit_bound(minimal@, b as nat, d as nat);
            vstd::arithmetic::div_mod::lemma_fundamental_div_mod_converse(4 * d + 0, 4, d as int, 0);
            vstd::arithmetic::div_mod::lemma_fundamental_div_mod_converse(4 * d + 1, 4, d as int, 1);
            vstd::arithmetic::div_mod::lemma_fundamental_div_mod_converse(4 * d + 2, 4, d as int, 2);
            vstd::arithmetic::div_mod::lemma_fundamental_div_mod_converse(4 * d + 3, 4, d as int, 3);
            lemma_reassemble(dg, b as u32, byte_pad as nat);
        }
        ret.push(v);
        d = d + 1;
    }
    assert(ret@ =~= minimal_indices(minimal@, n, k));
    Some(ret)
}

/// What BLAKE2b returns for a digest length, a personalisation and an input.
pub uninterp spec fn blake2b_personal(out_len: nat, personal: Seq<u8>, data: Seq<u8>) -> Seq<u8>;

/// Relies on blake2b_simd's `Params::hash` with `hash_length` and `personal` set:
/// the digest depends on the three alone and is `out_len` bytes long.
#[verifier::external_body]
fn blake2b_hash(out_len: usize, personal: &[u8], data: &[u8]) -> (r: Vec<u8>)
    requires
        1 <= out_len <= 64,
        personal@.len() <= 16,
    ensures
        r@ == blake2b_personal(out_len as nat, personal@, data@),
        r@.len() == out_len,
{
    blake2b_simd::Params::new().hash_length(out_len).personal(personal).hash(data).as_bytes().to_vec()
}

/// The four little-endian bytes of `x`.
pub open spec fn le32(x: u32) -> Seq<u8> {
    seq![(x & 0xff) as u8, ((x >> 8u32) & 0xff) as u8, ((x >> 16u32) & 0xff) as u8, ((x >> 24u32) & 0xff) as u8]
}

/// The BLAKE2b personalisation: `"ZcashPoW"`, then `n` and `k` little-endian.
pub open spec fn personalization(n: u32, k: u32) -> Seq<u8> {
    seq![0x5au8, 0x63, 0x61, 0x73, 0x68, 0x50, 0x6f, 0x57] + le32(n) + le32(k)
}

/// Digest number `g`: BLAKE2b of the header followed by `g` little-endian.
pub open spec fn group_digest(n: u32, k: u32, powheader: Seq<u8>, g: u32) -> Seq<u8> {
    blake2b_personal(digest_len(n), personalization(n, k), powheader + le32(g))
}

/// The hash of the leaf for index `i`: its `n`-bit slice of a group digest,
/// expanded into collision-sized digits.
pub open spec fn leaf_hash(n: u32, k: u32, powheader: Seq<u8>, i: u32) -> Seq<u8> {
    let iph = indices_per_hash(n);
    let start = ((i as nat % iph) * (n as nat)) / 8;
    let digest = group_digest(n, k, powheader, (i as nat / iph) as u32);
    expanded(digest.subrange(start as int, start + n / 8), collision_bits(n, k), 0)
}

/// `a` and `b` agree on their first `len` bytes (as far as both reach).
pub open spec fn collides(a: Seq<u8>, b: Seq<u8>, len: nat) -> bool {
    forall|j: int| 0 <= j < len && j < a.len() && j < b.len() ==> a[j] == b[j]
}

/// `a` and `b` share no element.
pub open spec fn disjoint(a: Seq<u32>, b: Seq<u32>) -> bool {
    forall|i: int, j: int| 0 <= i < a.len() && 0 <= j < b.len() ==> a[i] != b[j]
}

/// The XOR of `a` and `b` over their common length, without the first `trim` bytes.
pub open spec fn xor_tail(a: Seq<u8>, b: Seq<u8>, trim: nat) -> Seq<u8> {
    let m = if a.len() < b.len() { a.len() } else { b.len() };
    Seq::new(if m > trim { (m - trim) as nat } else { 0 }, |j: int| a[j + trim] ^ b[j + trim])
}

/// The two index lists joined, the one with the smaller first index first.
pub open spec fn merged_indices(a: Seq<u32>, b: Seq<u32>) -> Seq<u32> {
    if a[0] < b[0] {
        a + b
    } else {
        b + a
    }
}

/// The first `len` bytes of `h` (as far as it reaches) are zero.
pub open spec fn zero_prefix(h: Seq<u8>, len: nat) -> bool {
    forall|j: int| 0 <= j < len && j < h.len() ==> h[j] == 0
}

/// The merge tree over `idx[lo..hi]`, split at the midpoint, left half first:
/// the root's hash and index list, or the first failure met.
pub open spec fn merge_tree(n: u32, k: u32, powheader: Seq<u8>, idx: Seq<u32>, lo: nat, hi: nat) -> Result<(Seq<u8>, Seq<u32>), Kind>
    decreases hi - lo,
{
    if hi <= lo + 1 {
        Ok((leaf_hash(n, k, powheader, idx[lo as int]), seq![idx[lo as int]]))
    } else {
        let mid = lo + (hi - lo) / 2;
        match merge_tree(n, k, powheader, idx, lo, mid as nat) {
            Err(e) => Err(e),
            Ok(a) => match merge_tree(n, k, powheader, idx, mid as nat, hi) {
                Err(e) => Err(e),
                Ok(b) => if !collides(a.0, b.0, collision_bytes(n, k)) {
                    Err(Kind::Collision)
                } else if b.1[0] < a.1[0] {
                    Err(Kind::OutOfOrder)
                } else if !disjoint(a.1, b.1) {
                    Err(Kind::DuplicateIdxs)
                } else {
                    Ok((xor_tail(a.0, b.0, collision_bytes(n, k)), merged_indices(a.1, b.1)))
                },
            },
        }
    }
}

/// The outcome of verifying `solution` against `powheader` with parameters `(n, k)`.
pub open spec fn equihash_outcome(n: u32, k: u32, powheader: Seq<u8>, solution: Seq<u8>) -> Result<(), Kind> {
    if !valid_params(n, k) || solution.len() != solution_len(n, k) {
        Err(Kind::InvalidParams)
    } else {
        let idx = minimal_indices(solution, n, k);
        match merge_tree(n, k, powheader, idx, 0, idx.len()) {
            Err(e) => Err(e),
            Ok(root) => if zero_prefix(root.0, collision_bytes(n, k)) {
                Ok(())
            } else {
                Err(Kind::NonZeroRootHash)
            },
        }
    }
}

/// The failure kind that a verification result carries.
pub open spec fn outcome_of(r: Result<(), Error>) -> Result<(), Kind> {
    match r {
        Ok(()) => Ok(()),
        Err(e) => Err(e.0),
    }
}

/// Tree node holding the current reduced hash bytes and the ordered index list.
struct Node {
    hash: Vec<u8>,
    indices: Vec<u32>,
}

/// Builds the BLAKE2b personalisation for `(n, k)`.
fn initialise_personal(n: u32, k: u32) -> (r: Vec<u8>)
    ensures
        r@ == personalization(n, k),
{
    let mut v: Vec<u8> = Vec::with_capacity(16);
    v.push(0x5a);
    v.push(0x63);
    v.push(0x61);
    v.push(0x73);
    v.push(0x68);
    v.push(0x50);
    v.push(0x6f);
    v.push(0x57);
    push_le32(&mut v, n);
    push_le32(&mut v, k);
    assert(v@ =~= personalization(n, k));
    v
}

/// Appends `x` little-endian.
pub(crate) fn push_le32(v: &mut Vec<u8>, x: u32)
    ensures
        final(v)@ == old(v)@ + le32(x),
{
    v.push((x & 0xff) as u8);
    v.push(((x >> 8u32) & 0xff) as u8);
    v.push(((x >> 16u32) & 0xff) as u8);
    v.push(((x >> 24u32) & 0xff) as u8);
    assert(final(v)@ =~= old(v)@ + le32(x));
}

impl Node {
    /// The leaf for index `i`.
    fn new(p: &Params, personal: &Vec<u8>, powheader: &[u8], i: u32) -> (r: Node)
        requires
            supported_params(p.n_spec(), p.k_spec()),
            personal@ == personalization(p.n_spec(), p.k_spec()),
        ensures
            r.hash@ == leaf_hash(p.n_spec(), p.k_spec(), powheader@, i),
            r.indices@ == seq![i],
    {
        let n = p.n();
        let iph = p.indices_per_hash_output();
        let mut data = vstd::slice::slice_to_vec(powheader);
        push_le32(&mut data, i / iph);
        let digest = blake2b_hash(p.hash_output() as usize, personal.as_slice(), data.as_slice());
        proof {
            assert(iph * n <= 512) by (nonlinear_arith)
                requires
                    iph == 512int / (n as int),
                    n > 0,
            ;
            assert((i % iph) * n <= 512) by (nonlinear_arith)
                requires
                    i % iph < iph,
                    iph * n <= 512,
            ;
            assert(((i % iph) * n) / 8 + n / 8 <= digest_len(n)) by (nonlinear_arith)
                requires
                    i % iph < iph,
                    n % 8 == 0,
                    digest_len(n) == iph * (n as nat) / 8,
            ;
        }
        let start = (((i % iph) * n) / 8) as usize;
        let end = start + (n as usize) / 8;
        let slice = vstd::slice::slice_subrange(digest.as_slice(), start, end);
        let hash = expand_array(slice, p.collision_bit_length(), 0);
        let mut indices: Vec<u32> = Vec::new();
        indices.push(i);
        assert(indices@ =~= seq![i]);
        Node { hash, indices }
    }

    /// Combines siblings by XORing the bytes after the collision prefix and
    /// joining the index lists, the one with the smaller first index first.
    fn from_children(a: Node, b: Node, trim: usize) -> (r: Node)
        requires
            a.indices@.len() > 0,
            b.indices@.len() > 0,
        ensures
            r.hash@ == xor_tail(a.hash@, b.hash@, trim as nat),
            r.indices@ == merged_indices(a.indices@, b.indices@),
    {
        let m = if a.hash.len() < b.hash.len() {
            a.hash.len()
        } else {
            b.hash.len()
        };
        let mut hash: Vec<u8> = Vec::new();
        let mut j: usize = trim;
        while j < m
            invariant
                m == if a.hash@.len() < b.hash@.len() { a.hash@.len() } else { b.hash@.len() },
                trim <= m ==> j <= m,
                trim > m ==> j == trim,
                j >= trim,
                hash@.len() == j - trim,
                forall|t: int| 0 <= t < j - trim ==> hash@[t] == a.hash@[t + trim] ^ b.hash@[t + trim],
            decreases m - j,
        {
            hash.push(a.hash[j] ^ b.hash[j]);
            j = j + 1;
        }
        assert(hash@ =~= xor_tail(a.hash@, b.hash@, trim as nat));
        let indices = if a.indices_before(&b) {
            let mut v = a.indices;
            let mut w = b.indices;
            v.append(&mut w);
            v
        } else {
            let mut v = b.indices;
            let mut w = a.indices;
            v.append(&mut w);
            v
        };
        Node { hash, indices }
    }

    /// Orders subtrees by their first index.
    fn indices_before(&self, other: &Node) -> (r: bool)
        requires
            self.indices@.len() > 0,
            other.indices@.len() > 0,
        ensures
            r == (self.indices@[0] < other.indices@[0]),
    {
        self.indices[0] < other.indices[0]
    }

    /// Checks that the first `len` bytes equal zero.
    fn is_zero(&self, len: usize) -> (r: bool)
        ensures
            r == zero_prefix(self.hash@, len as nat),
    {
        let mut j: usize = 0;
        while j < len && j < self.hash.len()
            invariant
                forall|t: int| 0 <= t < j ==> self.hash@[t] == 0,
                j <= len,
            decreases len - j,
        {
            if self.hash[j] != 0 {
                return false;
            }
            j = j + 1;
        }
        true
    }
}

/// Checks collision prefix equality over `len` bytes.
fn has_collision(a: &Node, b: &Node, len: usize) -> (r: bool)
    ensures
        r == collides(a.hash@, b.hash@, len as nat),
{
    let mut j: usize = 0;
    while j < len && j < a.hash.len() && j < b.hash.len()
        invariant
            j <= len,
            forall|t: int| 0 <= t < j ==> a.hash@[t] == b.hash@[t],
        decreases len - j,
    {
        if a.hash[j] != b.hash[j] {
            return false;
        }
        j = j + 1;
    }
    true
}

/// Checks that the index lists are disjoint.
fn distinct_indices(a: &Node, b: &Node) -> (r: bool)
    ensures
        r == disjoint(a.indices@, b.indices@),
{
    let mut i: usize = 0;
    while i < a.indices.len()
        invariant
            forall|x: int, y: int| 0 <= x < i && 0 <= y < b.indices@.len() ==> a.indices@[x] != b.indices@[y],
        decreases a.indices@.len() - i,
    {
        let mut j: usize = 0;
        while j < b.indices.len()
            invariant
                i < a.indices@.len(),
                forall|x: int, y: int| 0 <= x < i && 0 <= y < b.indices@.len() ==> a.indices@[x] != b.indices@[y],
                forall|y: int| 0 <= y < j ==> a.indices@[i as int] != b.indices@[y],
            decreases b.indices@.len() - j,
        {
            if a.indices[i] == b.indices[j] {
                return false;
            }
            j = j + 1;
        }
        i = i + 1;
    }
    true
}

/// Checks the sibling constraints: collision, ordering, distinctness.
fn validate_subtrees(p: &Params, a: &Node, b: &Node) -> (r: Result<(), Kind>)
    requires
        a.indices@.len() > 0,
        b.indices@.len() > 0,
    ensures
        r == (if !collides(a.hash@, b.hash@, collision_bytes(p.n_spec(), p.k_spec())) {
            Err(Kind::Collision)
        } else if b.indices@[0] < a.indices@[0] {
            Err(Kind::OutOfOrder)
        } else if !disjoint(a.indices@, b.indices@) {
            Err(Kind::DuplicateIdxs)
        } else {
            Ok(())
        }),
{
    if !has_collision(a, b, p.collision_byte_length()) {
        Err(Kind::Collision)
    } else if b.indices_before(a) {
        Err(Kind::OutOfOrder)
    } else if !distinct_indices(a, b) {
        Err(Kind::DuplicateIdxs)
    } else {
        Ok(())
    }
}

/// Builds and validates the merge tree over `indices[lo..hi]`.
fn tree_validator(p: &Params, personal: &Vec<u8>, powheader: &[u8], indices: &Vec<u32>, lo: usize, hi: usize) -> (r: Result<Node, Kind>)
    requires
        supported_params(p.n_spec(), p.k_spec()),
        personal@ == personalization(p.n_spec(), p.k_spec()),
        lo < hi <= indices@.len(),
    ensures
        match r {
            Ok(node) => merge_tree(p.n_spec(), p.k_spec(), powheader@, indices@, lo as nat, hi as nat)
                == Ok::<(Seq<u8>, Seq<u32>), Kind>((node.hash@, node.indices@)) && node.indices@.len() == hi - lo,
            Err(e) => merge_tree(p.n_spec(), p.k_spec(), powheader@, indices@, lo as nat, hi as nat)
                == Err::<(Seq<u8>, Seq<u32>), Kind>(e),
        },
    decreases hi - lo,
{
    if hi - lo > 1 {
        let mid = lo + (hi - lo) / 2;
        let a = tree_validator(p, personal, powheader, indices, lo, mid)?;
        let b = tree_validator(p, personal, powheader, indices, mid, hi)?;
        validate_subtrees(p, &a, &b)?;
        Ok(Node::from_children(a, b, p.collision_byte_length()))
    } else {
        Ok(Node::new(p, personal, powheader, indices[lo]))
    }
}

/// Verifies `solution` for `powheader` with the Zcash parameters `(200, 9)`.
pub fn verify_equihash_solution(powheader: &[u8], solution: &[u8]) -> (r: Result<(), Error>)
    ensures
        outcome_of(r) == equihash_outcome(200, 9, powheader@, solution@),
{
    assert(collision_bits(200, 9) == 20);
    verify_equihash_solution_with_params(200, 9, powheader, solution)
}

/// Verifies `solution` for `powheader` with parameters `(n, k)`.
pub fn verify_equihash_solution_with_params(n: u32, k: u32, powheader: &[u8], solution: &[u8]) -> (r: Result<(), Error>)
    requires
        valid_params(n, k) ==> supported_params(n, k),
    ensures
        outcome_of(r) == equihash_outcome(n, k, powheader@, solution@),
{
    let p = match Params::new(n, k) {
        Some(p) => p,
        None => return Err(Error(Kind::InvalidParams)),
    };
    let indices = match indices_from_minimal(p, solution) {
        Some(v) => v,
        None => return Err(Error(Kind::InvalidParams)),
    };
    proof {
        vstd::arithmetic::power2::lemma_pow2_pos(k as nat);
    }
    let personal = initialise_personal(n, k);
    let root = match tree_validator(&p, &personal, powheader, &indices, 0, indices.len()) {
        Ok(node) => node,
        Err(e) => return Err(Error(e)),
    };
    if root.is_zero(p.collision_byte_length()) {
        Ok(())
    } else {
        Err(Error(Kind::NonZeroRootHash))
    }
}

/// A merge tree that validates holds each of its input indices once.
proof fn lemma_merge_tree_indices(n: u32, k: u32, powheader: Seq<u8>, idx: Seq<u32>, lo: nat, hi: nat)
    requires
        lo < hi <= idx.len(),
        merge_tree(n, k, powheader, idx, lo, hi) is Ok,
    ensures
        match merge_tree(n, k, powheader, idx, lo, hi) {
            Ok(node) => {
                &&& forall|t: int| lo <= t < hi ==> node.1.contains(#[trigger] idx[t])
                &&& node.1.len() == hi - lo
            },
            Err(_) => true,
        },
        forall|i: int, j: int| lo <= i < j < hi ==> idx[i] != idx[j],
    decreases hi - lo,
{
    if hi > lo + 1 {
        let mid = (lo + (hi - lo) / 2) as nat;
        lemma_merge_tree_indices(n, k, powheader, idx, lo, mid);
        lemma_merge_tree_indices(n, k, powheader, idx, mid, hi);
        let a = merge_tree(n, k, powheader, idx, lo, mid)->Ok_0;
        let b = merge_tree(n, k, powheader, idx, mid, hi)->Ok_0;
        let node = merge_tree(n, k, powheader, idx, lo, hi)->Ok_0;
        assert(node.1 == merged_indices(a.1, b.1));
        assert forall|t: int| lo <= t < hi implies node.1.contains(#[trigger] idx[t]) by {
            if t < mid {
                assert(a.1.contains(idx[t]));
                let q = choose|q: int| 0 <= q < a.1.len() && a.1[q] == idx[t];
                if a.1[0] < b.1[0] {
                    assert(node.1[q] == idx[t]);
                } else {
                    assert(node.1[b.1.len() + q] == idx[t]);
                }
            } else {
                assert(b.1.contains(idx[t]));
                let q = choose|q: int| 0 <= q < b.1.len() && b.1[q] == idx[t];
                if a.1[0] < b.1[0] {
                    assert(node.1[a.1.len() + q] == idx[t]);
                } else {
                    assert(node.1[q] == idx[t]);
                }
            }
        }
        assert forall|i: int, j: int| lo <= i < j < hi implies idx[i] != idx[j] by {
            if i < mid && mid <= j {
                assert(a.1.contains(idx[i]));
                assert(b.1.contains(idx[j]));
                let x = choose|x: int| 0 <= x < a.1.len() && a.1[x] == idx[i];
                let y = choose|y: int| 0 <= y < b.1.len() && b.1[y] == idx[j];
                assert(a.1[x] != b.1[y]);
            }
        }
    } else {
        let node = merge_tree(n, k, powheader, idx, lo, hi)->Ok_0;
        assert(node.1[0] == idx[lo as int]);
    }
}

/// Every solution that verifies under `(200, 9)` decodes into 512 pairwise
/// distinct indices, each below `2^21`.
pub proof fn lemma_valid_solution_indices(powheader: Seq<u8>, solution: Seq<u8>)
    requires
        equihash_outcome(200, 9, powheader, solution) == Ok::<(), Kind>(()),
    ensures
        ({
            let idx = minimal_indices(solution, 200, 9);
            &&& idx.len() == 512
            &&& forall|i: int, j: int| 0 <= i < j < idx.len() ==> idx[i] != idx[j]
            &&& forall|i: int| 0 <= i < idx.len() ==> idx[i] < 0x20_0000
        }),
{
    assert(collision_bits(200, 9) == 20);
    vstd::arithmetic::power2::lemma2_to64();
    let idx = minimal_indices(solution, 200, 9);
    assert(pow2(9) == 512);
    assert(solution_len(200, 9) == 1344);
    assert(solution.len() == 1344);
    assert(8 * solution.len() == 10752);
    assert(10752nat / 21 == 512);
    assert(digit_count(solution, 21) == 512);
    assert(idx.len() == 512);
    lemma_merge_tree_indices(200, 9, powheader, idx, 0, 512);
    assert((1u32 << 21u32) == 0x20_0000) by (bit_vector);
    assert forall|i: int| 0 <= i < idx.len() implies idx[i] < 0x20_0000 by {
        lemma_digit_bound(solution, 21, i as nat);
    }
}

} // verus!
