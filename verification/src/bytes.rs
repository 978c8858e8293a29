//! Little-endian fields: how numbers are laid out in machine code.

use vstd::prelude::*;

verus! {

/// The low byte of `x`, in two's complement where `x` is negative.
pub open spec fn le8(x: int) -> u8 {
    (x % 256) as u8
}

/// The four low bytes of `x`, least significant first, in two's complement where `x` is
/// negative.
#[verifier::opaque]
pub open spec fn le32(x: int) -> Seq<u8> {
    seq![le8(x), le8(x / 0x100), le8(x / 0x1_0000), le8(x / 0x100_0000)]
}

/// The eight low bytes of `x`, least significant first, in two's complement where `x` is
/// negative.
#[verifier::opaque]
pub open spec fn le64(x: int) -> Seq<u8> {
    le32(x) + le32(x / 0x1_0000_0000)
}

/// The number that four little-endian bytes spell.
pub open spec fn from_le32(s: Seq<u8>) -> int {
    s[0] + s[1] * 0x100 + s[2] * 0x1_0000 + s[3] * 0x100_0000
}

/// The number that four little-endian bytes spell in two's complement.
pub open spec fn signed32(s: Seq<u8>) -> int {
    let u = from_le32(s);
    if u < 0x8000_0000 {
        u
    } else {
        u - 0x1_0000_0000
    }
}

/// `img` with `bytes` written over it from index `at` on.
pub open spec fn overwrite(img: Seq<u8>, at: int, bytes: Seq<u8>) -> Seq<u8> {
    Seq::new(
        img.len(),
        |i: int|
            if at <= i < at + bytes.len() {
                bytes[i - at]
            } else {
                img[i]
            },
    )
}

/// The 32-bit word at index `at` of `img`.
pub open spec fn word_at(img: Seq<u8>, at: int) -> u32 {
    from_le32(img.subrange(at, at + 4)) as u32
}

pub proof fn lemma_le_len(x: int)
    ensures
        le32(x).len() == 4,
        le64(x).len() == 8,
{
    reveal(le32);
    reveal(le64);
}

pub proof fn lemma_cast_i64(v: i64)
    ensures
        v >= 0 ==> (v as u64) == v,
        v < 0 ==> (v as u64) == v + 0x1_0000_0000_0000_0000,
        (v as u8) as int == v % 256,
        (v as u32) as int == v % 0x1_0000_0000,
{
    assert(v >= 0 ==> (v as u64) == v) by (bit_vector);
    assert(v < 0 ==> (v as u64) == v + 0x1_0000_0000_0000_0000) by (bit_vector);
    assert(v as u8 == (v as u64) % 256 && v as u32 == (v as u64) % 0x1_0000_0000) by (bit_vector);
}

/// The four low bytes depend on the number modulo 2^32 alone.
pub proof fn lemma_le32_mod(x: int)
    ensures
        le32(x) == le32(x % 0x1_0000_0000),
{
    reveal(le32);
    let q = x / 0x1_0000_0000;
    let r = x % 0x1_0000_0000;
    lemma_byte_of_sum(r, 0x1_0000 * q, 0x100);
    lemma_byte_of_sum(r, 0x100 * q, 0x1_0000);
    lemma_byte_of_sum(r, q, 0x100_0000);
    lemma_byte_of_sum(r, 0x100_0000 * q, 1);
}

/// Multiples of `256 * d` do not show in the byte at weight `d`.
proof fn lemma_byte_of_sum(r: int, k: int, d: int)
    requires
        d > 0,
    ensures
        le8((r + 256 * k * d) / d) == le8(r / d),
{
    vstd::arithmetic::div_mod::lemma_hoist_over_denominator(r, 256 * k, d as nat);
    vstd::arithmetic::div_mod::lemma_mod_multiples_vanish(k, r / d, 256);
}

/// Four bytes read back give the number written, modulo 2^32.
pub proof fn lemma_from_le32(x: int)
    ensures
        from_le32(le32(x)) == x % 0x1_0000_0000,
{
    reveal(le32);
    lemma_le32_mod(x);
    let r = x % 0x1_0000_0000;
    let a = r / 0x100;
    let b = r / 0x1_0000;
    let c = r / 0x100_0000;
    assert(b == a / 0x100);
    assert(c == b / 0x100);
    assert(c < 256);
}

/// Four bytes read back in two's complement give the number written.
pub proof fn lemma_signed32(v: int)
    requires
        -0x8000_0000 <= v <= 0x7fff_ffff,
    ensures
        signed32(le32(v)) == v,
{
    lemma_from_le32(v);
}

/// Appends the four bytes of `w`.
pub fn push_le32(v: &mut Vec<u8>, w: u32)
    ensures
        final(v)@ == old(v)@ + le32(w as int),
{
    proof {
        reveal(le32);
        assert(w as u8 == w % 256 && (w >> 8) as u8 == w / 0x100 % 256 && (w >> 16) as u8 == w
            / 0x1_0000 % 256 && (w >> 24) as u8 == w / 0x100_0000 % 256) by (bit_vector);
    }
    v.push(w as u8);
    v.push((w >> 8) as u8);
    v.push((w >> 16) as u8);
    v.push((w >> 24) as u8);
}

/// Appends the four low bytes of `x`; higher bits are dropped.
pub fn push_low32(v: &mut Vec<u8>, x: i64)
    ensures
        final(v)@ == old(v)@ + le32(x as int),
{
    proof {
        lemma_cast_i64(x);
        lemma_le32_mod(x as int);
    }
    push_le32(v, x as u32);
}

proof fn lemma_halves(w: u64)
    ensures
        le64(w as int) == le32((w as u32) as int) + le32(((w >> 32) as u32) as int),
{
    reveal(le64);
    assert(w as u32 == w % 0x1_0000_0000 && (w >> 32) as u32 == w / 0x1_0000_0000) by (bit_vector);
    lemma_le32_mod(w as int);
}

/// Appends the eight bytes of `x`.
pub fn push_low64(v: &mut Vec<u8>, x: i64)
    ensures
        final(v)@ == old(v)@ + le64(x as int),
{
    let w: u64 = x as u64;
    proof {
        assert(le64(x as int) == le64(w as int)) by {
            lemma_cast_i64(x);
            lemma_le64_mod(x as int);
        }
        assert(le64(w as int) == le32((w as u32) as int) + le32(((w >> 32) as u32) as int)) by {
            lemma_halves(w);
        }
    }
    push_le32(v, w as u32);
    push_le32(v, (w >> 32) as u32);
}

/// The eight low bytes depend on the number modulo 2^64 alone.
pub proof fn lemma_le64_mod(x: int)
    ensures
        le64(x) == le64(x % 0x1_0000_0000_0000_0000),
{
    reveal(le64);
    let q = x / 0x1_0000_0000_0000_0000;
    let r = x % 0x1_0000_0000_0000_0000;
    assert(x == 0x1_0000_0000_0000_0000 * q + r);
    assert(x % 0x1_0000_0000 == r % 0x1_0000_0000);
    assert(x / 0x1_0000_0000 == 0x1_0000_0000 * q + r / 0x1_0000_0000);
    assert((x / 0x1_0000_0000) % 0x1_0000_0000 == (r / 0x1_0000_0000) % 0x1_0000_0000);
    lemma_le32_mod(x);
    lemma_le32_mod(r);
    lemma_le32_mod(x / 0x1_0000_0000);
    lemma_le32_mod(r / 0x1_0000_0000);
}

/// Eight bytes read back give the number written, modulo 2^64.
pub proof fn lemma_from_le64(x: int)
    ensures
        le64(x).len() == 8,
        from_le32(le64(x)) + 0x1_0000_0000 * from_le32(le64(x).skip(4)) == x
            % 0x1_0000_0000_0000_0000,
{
    lemma_le_len(x);
    lemma_le_len(x / 0x1_0000_0000);
    reveal(le64);
    lemma_from_le32(x);
    lemma_from_le32(x / 0x1_0000_0000);
    let s = le64(x);
    assert(s.skip(4) =~= le32(x / 0x1_0000_0000));
    assert(from_le32(s) == from_le32(le32(x)));
}

/// Writes the four bytes of `w` at index `at`.
pub fn put_le32(img: &mut Vec<u8>, at: usize, w: u32)
    requires
        at + 4 <= old(img).len(),
    ensures
        final(img)@ == overwrite(old(img)@, at as int, le32(w as int)),
{
    proof {
        reveal(le32);
    }
    let mut b: Vec<u8> = Vec::new();
    push_le32(&mut b, w);
    img.set(at, b[0]);
    img.set(at + 1, b[1]);
    img.set(at + 2, b[2]);
    img.set(at + 3, b[3]);
}

/// Writes the eight bytes of `w` at index `at`.
pub fn put_le64(img: &mut Vec<u8>, at: usize, w: u64)
    requires
        at + 8 <= old(img).len(),
    ensures
        final(img)@ == overwrite(old(img)@, at as int, le64(w as int)),
{
    proof {
        lemma_halves(w);
        lemma_le_len((w as u32) as int);
        lemma_le_len(((w >> 32) as u32) as int);
    }
    put_le32(img, at, w as u32);
    put_le32(img, at + 4, (w >> 32) as u32);
}

/// Reads the 32-bit word at index `at`.
pub fn get_le32(img: &Vec<u8>, at: usize) -> (w: u32)
    requires
        at + 4 <= img.len(),
    ensures
        w == word_at(img@, at as int),
{
    let a: u8 = img[at];
    let b: u8 = img[at + 1];
    let c: u8 = img[at + 2];
    let d: u8 = img[at + 3];
    a as u32 + (b as u32) * 0x100 + (c as u32) * 0x1_0000 + (d as u32) * 0x100_0000
}

/// ORs `bits` into the 32-bit word at index `at`.
pub fn or_word(img: &mut Vec<u8>, at: usize, bits: u32)
    requires
        at + 4 <= old(img).len(),
    ensures
        final(img)@ == overwrite(
            old(img)@,
            at as int,
            le32((word_at(old(img)@, at as int) | bits) as int),
        ),
{
    let w: u32 = get_le32(img, at);
    put_le32(img, at, w | bits);
}

} // verus!
