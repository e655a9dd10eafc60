//! Hex text of headers and block hashes. Nodes show hashes most significant
//! byte first; this library holds them least significant byte first.
use vstd::prelude::*;

verus! {

/// The value of an ASCII hex digit, either case.
pub open spec fn hex_digit_value(c: u8) -> Option<u8> {
    if 0x30 <= c <= 0x39 {
        Some((c - 0x30) as u8)
    } else if 0x41 <= c <= 0x46 {
        Some((c - 0x41 + 10) as u8)
    } else if 0x61 <= c <= 0x66 {
        Some((c - 0x61 + 10) as u8)
    } else {
        None
    }
}

/// `t` is an even number of ASCII hex digits.
pub open spec fn is_hex_text(t: Seq<u8>) -> bool {
    &&& t.len() % 2 == 0
    &&& forall|i: int| 0 <= i < t.len() ==> hex_digit_value(#[trigger] t[i]) is Some
}

/// The bytes that hex text denotes, two digits each, high digit first.
pub open spec fn hex_decoded(t: Seq<u8>) -> Seq<u8> {
    Seq::new(
        t.len() / 2,
        |i: int|
            (hex_digit_value(t[2 * i])->Some_0 * 16 + hex_digit_value(t[2 * i + 1])->Some_0) as u8,
    )
}

/// The lower-case hex digit for a value below 16.
pub open spec fn hex_digit_char(v: nat) -> char {
    if v < 10 {
        (0x30 + v) as char
    } else {
        (0x61 + v - 10) as char
    }
}

/// Lower-case hex text of `b`, two digits per byte, high digit first.
pub open spec fn hex_encoded(b: Seq<u8>) -> Seq<char> {
    Seq::new(
        2 * b.len(),
        |i: int|
            if i % 2 == 0 {
                hex_digit_char((b[i / 2] / 16) as nat)
            } else {
                hex_digit_char((b[i / 2] % 16) as nat)
            },
    )
}

/// Relies on `hex::decode`: it fails on odd length or a non-hex byte, and
/// otherwise gives one byte per two digits, high digit first, either case.
#[verifier::external_body]
fn hex_decode(text: &[u8]) -> (r: Option<Vec<u8>>)
    ensures
        r.is_some() == is_hex_text(text@),
        r matches Some(v) ==> v@ == hex_decoded(text@),
{
    hex::decode(text).ok()
}

/// Relies on `hex::encode`: two lower-case digits per byte, high digit first.
#[verifier::external_body]
fn hex_encode(bytes: &[u8]) -> (r: String)
    ensures
        r@ == hex_encoded(bytes@),
{
    hex::encode(bytes)
}

/// Decodes hex text (given as its ASCII bytes).
pub fn bytes_from_hex(text: &[u8]) -> (r: Option<Vec<u8>>)
    ensures
        r.is_some() == is_hex_text(text@),
        r matches Some(v) ==> v@ == hex_decoded(text@),
{
    hex_decode(text)
}

/// Lower-case hex text of `bytes`.
pub fn hex_of(bytes: &[u8]) -> (r: String)
    ensures
        r@ == hex_encoded(bytes@),
{
    hex_encode(bytes)
}

/// Reads a block hash shown most significant byte first into the
/// little-endian form; none unless the text is 64 hex digits.
pub fn hash_from_display_hex(text: &[u8]) -> (r: Option<[u8; 32]>)
    ensures
        r.is_some() == (is_hex_text(text@) && text@.len() == 64),
        r matches Some(h) ==> h@ == hex_decoded(text@).reverse(),
{
    let bytes = match hex_decode(text) {
        Some(b) => b,
        None => return None,
    };
    if bytes.len() != 32 {
        return None;
    }
    let mut out = [0u8; 32];
    let mut i: usize = 0;
    while i < 32
        invariant
            i <= 32,
            bytes@.len() == 32,
            forall|j: int| 0 <= j < i ==> out@[j] == bytes@[31 - j],
        decreases 32 - i,
    {
        out[i] = bytes[31 - i];
        i = i + 1;
    }
    assert(out@ =~= bytes@.reverse());
    Some(out)
}

/// Shows a little-endian block hash most significant byte first, in lower-case hex.
pub fn display_hex_of_hash(hash: &[u8; 32]) -> (r: String)
    ensures
        r@ == hex_encoded(hash@.reverse()),
{
    let mut be: Vec<u8> = Vec::with_capacity(32);
    let mut i: usize = 32;
    while i > 0
        invariant
            i <= 32,
            be@.len() == 32 - i,
            forall|j: int| 0 <= j < 32 - i ==> be@[j] == hash@[31 - j],
        decreases i,
    {
        be.push(hash[i - 1]);
        i = i - 1;
    }
    assert(be@ =~= hash@.reverse());
    hex_encode(be.as_slice())
}

} // verus!
