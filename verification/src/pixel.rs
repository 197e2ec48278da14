use vstd::prelude::*;

verus! {

/// One RGBA color value. All component arithmetic in the codec is modulo 256:
/// overflow wraps, by design of the wire format.
#[derive(Clone, Copy, PartialEq, Eq, Structural, Debug)]
#[verifier::ext_equal]
pub struct Pixel {
    pub r: u8,
    pub g: u8,
    pub b: u8,
    pub a: u8,
}

/// Reduce an integer into a byte, modulo 256.
pub open spec fn wrap8(a: int) -> u8 {
    (a % 256) as u8
}

/// Wrapping difference `x - y` modulo 256.
pub open spec fn wsub(x: u8, y: u8) -> u8 {
    wrap8(x - y)
}

/// Slot of a pixel in the 64-entry color cache: each product wraps at 8 bits,
/// the sum is then reduced modulo 64.
pub open spec fn hash_of(p: Pixel) -> int {
    ((p.r * 3) % 256 + (p.g * 5) % 256 + (p.b * 7) % 256 + (p.a * 11) % 256) % 64
}

pub proof fn lemma_hash_bound(p: Pixel)
    ensures
        0 <= hash_of(p) < 64,
{
}

/// Cache slot of `p`, as executable code.
pub fn pixel_hash(p: &Pixel) -> (h: usize)
    ensures
        h == hash_of(*p),
{
    ((((p.r as u16) * 3) % 256 + ((p.g as u16) * 5) % 256 + ((p.b as u16) * 7) % 256
        + ((p.a as u16) * 11) % 256) % 64) as usize
}

/// Wrapping subtraction on bytes, matching `wsub`.
pub fn byte_sub(x: u8, y: u8) -> (r: u8)
    ensures
        r == wsub(x, y),
{
    proof {
        vstd::arithmetic::div_mod::lemma_mod_add_multiples_vanish(x - y, 256);
    }
    (((x as u16) + 256 - (y as u16)) % 256) as u8
}

/// A byte is unchanged by reduction modulo 256.
pub proof fn lemma_wrap8_byte(x: u8)
    ensures
        wrap8(x as int) == x,
{
    vstd::arithmetic::div_mod::lemma_small_mod(x as nat, 256);
}

/// Congruent values reduce to the same byte: adding 256 changes nothing.
pub proof fn lemma_wrap8_add256(a: int)
    ensures
        wrap8(a + 256) == wrap8(a),
{
    vstd::arithmetic::div_mod::lemma_mod_add_multiples_vanish(a, 256);
}

/// In a modulo-256 sum, a wrapped difference cancels against its subtrahend:
/// `wsub(x, y) + y` contributes exactly what `x` does.
pub proof fn lemma_wrap8_absorb(base: int, x: u8, y: u8)
    ensures
        wrap8(base + wsub(x, y) + y) == wrap8(base + x),
{
    if x >= y {
        vstd::arithmetic::div_mod::lemma_small_mod((x - y) as nat, 256);
        assert(wsub(x, y) == x - y);
    } else {
        vstd::arithmetic::div_mod::lemma_mod_add_multiples_vanish(x - y, 256);
        vstd::arithmetic::div_mod::lemma_small_mod((x - y + 256) as nat, 256);
        assert(wsub(x, y) == x - y + 256);
        lemma_wrap8_add256(base + x);
    }
}

/// A value already in [0, 256) is its own remainder.
pub proof fn lemma_mod256_small(a: int)
    requires
        0 <= a < 256,
    ensures
        a % 256 == a,
{
    vstd::arithmetic::div_mod::lemma_small_mod(a as nat, 256);
}

/// A value in [256, 512) loses exactly 256.
pub proof fn lemma_mod256_shift(a: int)
    requires
        256 <= a < 512,
    ensures
        a % 256 == a - 256,
{
    vstd::arithmetic::div_mod::lemma_small_mod((a - 256) as nat, 256);
    vstd::arithmetic::div_mod::lemma_mod_add_multiples_vanish(a - 256, 256);
}

} // verus!
