//! The word abstraction: a fixed-width unsigned integer with wrapping
//! arithmetic, bitwise operations and width-aware dynamic rotation, so that
//! one algorithm body serves every supported width.

use vstd::prelude::*;

verus! {

/// Capability set a cipher word must provide: wrapping add/sub, XOR/OR,
/// shifts, width-aware rotation amounts, and the per-width constants P and Q
/// that seed the subkey table.
///
/// Every operation is total and pure; each exec method is pinned to the
/// matching spec-level operation, and the proof obligations state the
/// algebraic facts the cipher's correctness rests on (rotation and wrapping
/// addition invert, XOR is an involution).
pub trait Word: Copy + Sized {
    /// Bit width w of the word type.
    spec fn spec_bits() -> nat;

    /// Byte width of the word type.
    spec fn spec_bytes() -> nat;

    /// The numeric value of a word.
    spec fn spec_val(self) -> nat;

    /// The all-zero word.
    spec fn spec_zero() -> Self;

    /// Per-width constant P, from the binary expansion of Euler's number.
    spec fn spec_p() -> Self;

    /// Per-width constant Q, from the binary expansion of the golden ratio.
    spec fn spec_q() -> Self;

    /// Wrapping addition modulo 2^w.
    spec fn spec_wadd(self, rhs: Self) -> Self;

    /// Wrapping subtraction modulo 2^w.
    spec fn spec_wsub(self, rhs: Self) -> Self;

    /// Bitwise exclusive or.
    spec fn spec_xor(self, rhs: Self) -> Self;

    /// Bitwise or.
    spec fn spec_or(self, rhs: Self) -> Self;

    /// Left shift by n bits, n < w; high bits fall off.
    spec fn spec_lshift(self, n: u8) -> Self;

    /// Logical right shift by n bits, n < w.
    spec fn spec_rshift(self, n: u8) -> Self;

    /// The effective rotation amount a word stands for: its value mod w.
    spec fn spec_rot_amount(self) -> u8;

    /// The word holding the value of one byte.
    spec fn spec_from_u8(v: u8) -> Self;

    /// Shift the word left by one byte and add `b`, wrapping: how key bytes
    /// are folded big-endian into word slots.
    spec fn spec_push_byte(self, b: u8) -> Self;

    proof fn lemma_width()
        ensures
            Self::spec_bits() == 8 * Self::spec_bytes(),
            1 <= Self::spec_bytes(),
            Self::spec_bits() <= 128,
    ;

    proof fn lemma_rot_amount(y: Self)
        ensures
            y.spec_rot_amount() as nat == y.spec_val() % Self::spec_bits(),
            (y.spec_rot_amount() as nat) < Self::spec_bits(),
    ;

    proof fn lemma_wadd_wsub(x: Self, y: Self)
        ensures
            x.spec_wadd(y).spec_wsub(y) == x,
    ;

    proof fn lemma_xor_twice(x: Self, y: Self)
        ensures
            x.spec_xor(y).spec_xor(y) == x,
    ;

    proof fn lemma_rot_cancel(x: Self, a: u8)
        requires
            0 < a as nat,
            (a as nat) < Self::spec_bits(),
        ensures
            ({
                let s = (Self::spec_bits() - a) as u8;
                let l = x.spec_lshift(a).spec_or(x.spec_rshift(s));
                l.spec_rshift(a).spec_or(l.spec_lshift(s)) == x
            }),
            ({
                let s = (Self::spec_bits() - a) as u8;
                let r = x.spec_rshift(a).spec_or(x.spec_lshift(s));
                r.spec_lshift(a).spec_or(r.spec_rshift(s)) == x
            }),
    ;

    fn bytes() -> (r: usize)
        ensures
            r as nat == Self::spec_bytes(),
    ;

    fn bit_width() -> (r: u8)
        ensures
            r as nat == Self::spec_bits(),
    ;

    fn zero() -> (r: Self)
        ensures
            r == Self::spec_zero(),
    ;

    fn p() -> (r: Self)
        ensures
            r == Self::spec_p(),
    ;

    fn q() -> (r: Self)
        ensures
            r == Self::spec_q(),
    ;

    fn wadd(self, rhs: Self) -> (r: Self)
        ensures
            r == self.spec_wadd(rhs),
    ;

    fn wsub(self, rhs: Self) -> (r: Self)
        ensures
            r == self.spec_wsub(rhs),
    ;

    fn xor(self, rhs: Self) -> (r: Self)
        ensures
            r == self.spec_xor(rhs),
    ;

    fn or(self, rhs: Self) -> (r: Self)
        ensures
            r == self.spec_or(rhs),
    ;

    fn shl_bits(self, n: u8) -> (r: Self)
        requires
            (n as nat) < Self::spec_bits(),
        ensures
            r == self.spec_lshift(n),
    ;

    fn shr_bits(self, n: u8) -> (r: Self)
        requires
            (n as nat) < Self::spec_bits(),
        ensures
            r == self.spec_rshift(n),
    ;

    fn rot_amount(self) -> (r: u8)
        ensures
            r == self.spec_rot_amount(),
    ;

    fn from_u8(v: u8) -> (r: Self)
        ensures
            r == Self::spec_from_u8(v),
    ;

    fn push_byte(self, b: u8) -> (r: Self)
        ensures
            r == self.spec_push_byte(b),
    ;
}

/// Rotate left by the value of `y`, reduced mod the bit width. A reduced
/// amount of zero leaves the word unchanged.
pub open spec fn spec_rotl<W: Word>(x: W, y: W) -> W {
    let a = y.spec_rot_amount();
    if a == 0 {
        x
    } else {
        x.spec_lshift(a).spec_or(x.spec_rshift((W::spec_bits() - a) as u8))
    }
}

/// Rotate right by the value of `y`, reduced mod the bit width.
pub open spec fn spec_rotr<W: Word>(x: W, y: W) -> W {
    let a = y.spec_rot_amount();
    if a == 0 {
        x
    } else {
        x.spec_rshift(a).spec_or(x.spec_lshift((W::spec_bits() - a) as u8))
    }
}

/// Circular left shift of `x` by the value of `y` reduced mod the bit width.
pub fn rotl<W: Word>(x: W, y: W) -> (r: W)
    ensures
        r == spec_rotl(x, y),
{
    proof {
        W::lemma_rot_amount(y);
        W::lemma_width();
    }
    let a: u8 = y.rot_amount();
    if a == 0 {
        x
    } else {
        let w: u8 = W::bit_width();
        x.shl_bits(a).or(x.shr_bits(w - a))
    }
}

/// Circular right shift of `x` by the value of `y` reduced mod the bit width.
pub fn rotr<W: Word>(x: W, y: W) -> (r: W)
    ensures
        r == spec_rotr(x, y),
{
    proof {
        W::lemma_rot_amount(y);
        W::lemma_width();
    }
    let a: u8 = y.rot_amount();
    if a == 0 {
        x
    } else {
        let w: u8 = W::bit_width();
        x.shr_bits(a).or(x.shl_bits(w - a))
    }
}

/// Rotating left and then right by the same word, or right and then left,
/// returns the input: the two rotations invert each other for every amount.
pub proof fn lemma_rot_roundtrip<W: Word>(x: W, y: W)
    ensures
        spec_rotr(spec_rotl(x, y), y) == x,
        spec_rotl(spec_rotr(x, y), y) == x,
{
    W::lemma_rot_amount(y);
    W::lemma_width();
    let a = y.spec_rot_amount();
    if a != 0 {
        W::lemma_rot_cancel(x, a);
    }
}

/// Rotation by any multiple of the bit width, the zero amount included, is
/// the identity, in both directions.
pub proof fn lemma_rotation_identity<W: Word>(x: W, y: W)
    requires
        y.spec_val() % W::spec_bits() == 0,
    ensures
        spec_rotl(x, y) == x,
        spec_rotr(x, y) == x,
{
    W::lemma_rot_amount(y);
}

/// The reference 32-bit word, with the standard P and Q constants.
impl Word for u32 {
    open spec fn spec_bits() -> nat {
        32
    }

    open spec fn spec_bytes() -> nat {
        4
    }

    open spec fn spec_val(self) -> nat {
        self as nat
    }

    open spec fn spec_zero() -> u32 {
        0u32
    }

    open spec fn spec_p() -> u32 {
        0xb7e15163u32
    }

    open spec fn spec_q() -> u32 {
        0x9e3779b9u32
    }

    open spec fn spec_wadd(self, rhs: u32) -> u32 {
        vstd::wrapping::u32_specs::wrapping_add(self, rhs)
    }

    open spec fn spec_wsub(self, rhs: u32) -> u32 {
        vstd::wrapping::u32_specs::wrapping_sub(self, rhs)
    }

    open spec fn spec_xor(self, rhs: u32) -> u32 {
        self ^ rhs
    }

    open spec fn spec_or(self, rhs: u32) -> u32 {
        self | rhs
    }

    open spec fn spec_lshift(self, n: u8) -> u32 {
        self << (n as u32)
    }

    open spec fn spec_rshift(self, n: u8) -> u32 {
        self >> (n as u32)
    }

    open spec fn spec_rot_amount(self) -> u8 {
        (self & 31) as u8
    }

    open spec fn spec_from_u8(v: u8) -> u32 {
        v as u32
    }

    open spec fn spec_push_byte(self, b: u8) -> u32 {
        vstd::wrapping::u32_specs::wrapping_add(self << 8u32, b as u32)
    }

    proof fn lemma_width() {
    }

    proof fn lemma_rot_amount(y: u32) {
        assert(y & 31 == y % 32) by (bit_vector);
        assert(y % 32 < 32) by (bit_vector);
    }

    proof fn lemma_wadd_wsub(x: u32, y: u32) {
    }

    proof fn lemma_xor_twice(x: u32, y: u32) {
        assert((x ^ y) ^ y == x) by (bit_vector);
    }

    proof fn lemma_rot_cancel(x: u32, a: u8) {
        let au = a as u32;
        let s = (32 - au) as u32;
        assert(((32 - a) as u8) as u32 == s);
        assert((((x << au) | (x >> s)) >> au) | (((x << au) | (x >> s)) << s) == x)
            by (bit_vector)
            requires
                au + s == 32 && 0 < au < 32,
        ;
        assert((((x >> au) | (x << s)) << au) | (((x >> au) | (x << s)) >> s) == x)
            by (bit_vector)
            requires
                au + s == 32 && 0 < au < 32,
        ;
    }

    fn bytes() -> usize {
        4
    }

    fn bit_width() -> u8 {
        32
    }

    fn zero() -> u32 {
        0u32
    }

    fn p() -> u32 {
        0xb7e15163u32
    }

    fn q() -> u32 {
        0x9e3779b9u32
    }

    fn wadd(self, rhs: u32) -> u32 {
        self.wrapping_add(rhs)
    }

    fn wsub(self, rhs: u32) -> u32 {
        self.wrapping_sub(rhs)
    }

    fn xor(self, rhs: u32) -> u32 {
        self ^ rhs
    }

    fn or(self, rhs: u32) -> u32 {
        self | rhs
    }

    fn shl_bits(self, n: u8) -> u32 {
        self << (n as u32)
    }

    fn shr_bits(self, n: u8) -> u32 {
        self >> (n as u32)
    }

    fn rot_amount(self) -> u8 {
        proof {
            assert(self & 31 < 32) by (bit_vector);
        }
        (self & 31) as u8
    }

    fn from_u8(v: u8) -> u32 {
        v as u32
    }

    fn push_byte(self, b: u8) -> u32 {
        (self << 8u32).wrapping_add(b as u32)
    }
}

/// An 8-bit word, used to exercise rotation logic at a tractable size; its
/// P and Q constants are zero.
impl Word for u8 {
    open spec fn spec_bits() -> nat {
        8
    }

    open spec fn spec_bytes() -> nat {
        1
    }

    open spec fn spec_val(self) -> nat {
        self as nat
    }

    open spec fn spec_zero() -> u8 {
        0u8
    }

    open spec fn spec_p() -> u8 {
        0u8
    }

    open spec fn spec_q() -> u8 {
        0u8
    }

    open spec fn spec_wadd(self, rhs: u8) -> u8 {
        vstd::wrapping::u8_specs::wrapping_add(self, rhs)
    }

    open spec fn spec_wsub(self, rhs: u8) -> u8 {
        vstd::wrapping::u8_specs::wrapping_sub(self, rhs)
    }

    open spec fn spec_xor(self, rhs: u8) -> u8 {
        self ^ rhs
    }

    open spec fn spec_or(self, rhs: u8) -> u8 {
        self | rhs
    }

    open spec fn spec_lshift(self, n: u8) -> u8 {
        self << n
    }

    open spec fn spec_rshift(self, n: u8) -> u8 {
        self >> n
    }

    open spec fn spec_rot_amount(self) -> u8 {
        self & 7
    }

    open spec fn spec_from_u8(v: u8) -> u8 {
        v
    }

    open spec fn spec_push_byte(self, b: u8) -> u8 {
        b
    }

    proof fn lemma_width() {
    }

    proof fn lemma_rot_amount(y: u8) {
        assert(y & 7 == y % 8) by (bit_vector);
        assert(y % 8 < 8) by (bit_vector);
    }

    proof fn lemma_wadd_wsub(x: u8, y: u8) {
    }

    proof fn lemma_xor_twice(x: u8, y: u8) {
        assert((x ^ y) ^ y == x) by (bit_vector);
    }

    proof fn lemma_rot_cancel(x: u8, a: u8) {
        let s = (8 - a) as u8;
        assert((((x << a) | (x >> s)) >> a) | (((x << a) | (x >> s)) << s) == x)
            by (bit_vector)
            requires
                a + s == 8 && 0 < a < 8,
        ;
        assert((((x >> a) | (x << s)) << a) | (((x >> a) | (x << s)) >> s) == x)
            by (bit_vector)
            requires
                a + s == 8 && 0 < a < 8,
        ;
    }

    fn bytes() -> usize {
        1
    }

    fn bit_width() -> u8 {
        8
    }

    fn zero() -> u8 {
        0u8
    }

    fn p() -> u8 {
        0u8
    }

    fn q() -> u8 {
        0u8
    }

    fn wadd(self, rhs: u8) -> u8 {
        self.wrapping_add(rhs)
    }

    fn wsub(self, rhs: u8) -> u8 {
        self.wrapping_sub(rhs)
    }

    fn xor(self, rhs: u8) -> u8 {
        self ^ rhs
    }

    fn or(self, rhs: u8) -> u8 {
        self | rhs
    }

    fn shl_bits(self, n: u8) -> u8 {
        self << n
    }

    fn shr_bits(self, n: u8) -> u8 {
        self >> n
    }

    fn rot_amount(self) -> u8 {
        self & 7
    }

    fn from_u8(v: u8) -> u8 {
        v
    }

    fn push_byte(self, b: u8) -> u8 {
        b
    }
}

} // verus!
