//! The element type of the arithmetic kernels.

use vstd::prelude::*;

verus! {

/// A fixed-size copyable number with a zero, a sum and a product.
///
/// The kernels accumulate left to right and never reorder, so no law of
/// associativity or commutativity is asked for. The one law is what makes
/// zero-padding of a partial tile harmless.
pub trait Scalar: Copy {
    /// The value that pads a tile.
    spec fn zero_value() -> Self;

    /// What `plus` returns.
    spec fn sum(self, rhs: Self) -> Self;

    /// What `times` returns.
    spec fn product(self, rhs: Self) -> Self;

    /// Adding the product of two padding values changes nothing.
    proof fn lemma_padding_is_neutral(x: Self)
        ensures
            x.sum(Self::zero_value().product(Self::zero_value())) == x,
    ;

    fn zero() -> (r: Self)
        ensures
            r == Self::zero_value(),
    ;

    fn plus(self, rhs: Self) -> (r: Self)
        ensures
            r == self.sum(rhs),
    ;

    fn times(self, rhs: Self) -> (r: Self)
        ensures
            r == self.product(rhs),
    ;
}

/// 32-bit lanes: two's complement integers, sum and product wrap around.
impl Scalar for i32 {
    open spec fn zero_value() -> i32 {
        0i32
    }

    open spec fn sum(self, rhs: i32) -> i32 {
        vstd::wrapping::i32_specs::wrapping_add(self, rhs)
    }

    open spec fn product(self, rhs: i32) -> i32 {
        vstd::wrapping::i32_specs::wrapping_mul(self, rhs)
    }

    proof fn lemma_padding_is_neutral(x: i32) {
    }

    fn zero() -> (r: i32) {
        0i32
    }

    fn plus(self, rhs: i32) -> (r: i32) {
        self.wrapping_add(rhs)
    }

    fn times(self, rhs: i32) -> (r: i32) {
        self.wrapping_mul(rhs)
    }
}

/// 64-bit lanes: two's complement integers, sum and product wrap around.
impl Scalar for i64 {
    open spec fn zero_value() -> i64 {
        0i64
    }

    open spec fn sum(self, rhs: i64) -> i64 {
        vstd::wrapping::i64_specs::wrapping_add(self, rhs)
    }

    open spec fn product(self, rhs: i64) -> i64 {
        vstd::wrapping::i64_specs::wrapping_mul(self, rhs)
    }

    proof fn lemma_padding_is_neutral(x: i64) {
    }

    fn zero() -> (r: i64) {
        0i64
    }

    fn plus(self, rhs: i64) -> (r: i64) {
        self.wrapping_add(rhs)
    }

    fn times(self, rhs: i64) -> (r: i64) {
        self.wrapping_mul(rhs)
    }
}

/// While nothing wraps, the 32-bit sum is the sum of the integers.
pub proof fn lemma_i32_sum_exact(x: i32, y: i32)
    requires
        i32::MIN <= x + y <= i32::MAX,
    ensures
        x.sum(y) == x + y,
{
}

/// While nothing wraps, the 32-bit product is the product of the integers.
pub proof fn lemma_i32_product_exact(x: i32, y: i32)
    requires
        i32::MIN <= x * y <= i32::MAX,
    ensures
        x.product(y) == x * y,
{
}

/// While nothing wraps, the 64-bit sum is the sum of the integers.
pub proof fn lemma_i64_sum_exact(x: i64, y: i64)
    requires
        i64::MIN <= x + y <= i64::MAX,
    ensures
        x.sum(y) == x + y,
{
}

/// While nothing wraps, the 64-bit product is the product of the integers.
pub proof fn lemma_i64_product_exact(x: i64, y: i64)
    requires
        i64::MIN <= x * y <= i64::MAX,
    ensures
        x.product(y) == x * y,
{
}

} // verus!
