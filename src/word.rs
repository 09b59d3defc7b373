//! Arithmetic on 32-bit words: modular addition and subtraction, and
//! circular rotation by an amount taken modulo the word size.
use vstd::prelude::*;

verus! {

/// Addition and subtraction that wrap around instead of overflowing.
pub trait ArithExt<T>: Sized {
    /// The value of `self + val` in the type's modular arithmetic.
    spec fn add_spec(self, val: T) -> T;

    /// The value of `self - val` in the type's modular arithmetic.
    spec fn sub_spec(self, val: T) -> T;

    /// Add operator with standard overflow semantics.
    fn platform_add(self, val: T) -> (r: T)
        ensures
            r == self.add_spec(val),
    ;

    /// Subtraction operator with standard overflow semantics.
    fn platform_sub(self, val: T) -> (r: T)
        ensures
            r == self.sub_spec(val),
    ;
}

impl ArithExt<u32> for u32 {
    open spec fn add_spec(self, val: u32) -> u32 {
        ((self + val) % 0x1_0000_0000) as u32
    }

    open spec fn sub_spec(self, val: u32) -> u32 {
        ((self - val) % 0x1_0000_0000) as u32
    }

    fn platform_add(self, val: u32) -> (r: u32) {
        self.wrapping_add(val)
    }

    fn platform_sub(self, val: u32) -> (r: u32) {
        self.wrapping_sub(val)
    }
}

/// `x` rotated left by `n % 32` bits.
pub open spec fn rotl(x: u32, n: u32) -> u32 {
    let s = n & 31;
    if s == 0 {
        x
    } else {
        (x << s) | (x >> (32 - s) as u32)
    }
}

/// `x` rotated right by `n % 32` bits.
pub open spec fn rotr(x: u32, n: u32) -> u32 {
    let s = n & 31;
    if s == 0 {
        x
    } else {
        (x >> s) | (x << (32 - s) as u32)
    }
}

/// Rotates `x` left by `n` bits, counting only the low five bits of `n`.
pub fn rotate_left(x: u32, n: u32) -> (r: u32)
    ensures
        r == rotl(x, n),
{
    let s: u32 = n & 31;
    if s == 0 {
        x
    } else {
        assert(0 < s < 32) by (bit_vector)
            requires
                s == n & 31,
                s != 0,
        ;
        (x << s) | (x >> (32 - s))
    }
}

/// Rotates `x` right by `n` bits, counting only the low five bits of `n`.
pub fn rotate_right(x: u32, n: u32) -> (r: u32)
    ensures
        r == rotr(x, n),
{
    let s: u32 = n & 31;
    if s == 0 {
        x
    } else {
        assert(0 < s < 32) by (bit_vector)
            requires
                s == n & 31,
                s != 0,
        ;
        (x >> s) | (x << (32 - s))
    }
}

/// Rotating right undoes rotating left by the same amount.
pub proof fn lemma_rotr_rotl(x: u32, n: u32)
    ensures
        rotr(rotl(x, n), n) == x,
{
    assert(rotr(rotl(x, n), n) == x) by (bit_vector);
}

/// Rotating left undoes rotating right by the same amount.
pub proof fn lemma_rotl_rotr(x: u32, n: u32)
    ensures
        rotl(rotr(x, n), n) == x,
{
    assert(rotl(rotr(x, n), n) == x) by (bit_vector);
}

/// Subtracting `k` undoes adding `k`, and adding undoes subtracting.
pub proof fn lemma_add_sub_cancel(x: u32, k: u32)
    ensures
        x.add_spec(k).sub_spec(k) == x,
        x.sub_spec(k).add_spec(k) == x,
{
}

} // verus!
