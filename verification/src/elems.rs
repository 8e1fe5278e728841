//! Element capabilities: matrices are generic over an abstract element type,
//! and each operation asks only for the capability it uses — an additive
//! identity for `zero`, both identities for `one`, and an operator together
//! with copyability for the elementwise and product operations.

use vstd::prelude::*;

verus! {

/// An element type with addition, partial where the sum is unrepresentable.
pub trait AddElem: Copy {
    /// Whether the sum of the two values is representable.
    spec fn add_ok(self, rhs: Self) -> bool;

    /// The sum, as a mathematical value.
    spec fn add_spec(self, rhs: Self) -> Self;

    /// Computes the sum.
    fn add_elem(self, rhs: Self) -> (r: Self)
        requires
            self.add_ok(rhs),
        ensures
            r == self.add_spec(rhs),
    ;
}

/// An element type with subtraction, partial where the difference is
/// unrepresentable.
pub trait SubElem: Copy {
    /// Whether the difference of the two values is representable.
    spec fn sub_ok(self, rhs: Self) -> bool;

    /// The difference, as a mathematical value.
    spec fn sub_spec(self, rhs: Self) -> Self;

    /// Computes the difference.
    fn sub_elem(self, rhs: Self) -> (r: Self)
        requires
            self.sub_ok(rhs),
        ensures
            r == self.sub_spec(rhs),
    ;
}

/// An element type with multiplication, partial where the product is
/// unrepresentable.
pub trait MulElem: Copy {
    /// Whether the product of the two values is representable.
    spec fn mul_ok(self, rhs: Self) -> bool;

    /// The product, as a mathematical value.
    spec fn mul_spec(self, rhs: Self) -> Self;

    /// Computes the product.
    fn mul_elem(self, rhs: Self) -> (r: Self)
        requires
            self.mul_ok(rhs),
        ensures
            r == self.mul_spec(rhs),
    ;
}

/// An element type with an additive identity.
pub trait ZeroElem: Sized {
    /// The additive identity, as a mathematical value.
    spec fn zero_spec() -> Self;

    /// Produces the additive identity.
    fn zero_elem() -> (r: Self)
        ensures
            r == Self::zero_spec(),
    ;
}

/// An element type with a multiplicative identity.
pub trait OneElem: Sized {
    /// The multiplicative identity, as a mathematical value.
    spec fn one_spec() -> Self;

    /// Produces the multiplicative identity.
    fn one_elem() -> (r: Self)
        ensures
            r == Self::one_spec(),
    ;
}

/// The identity and annihilation laws that make the identity matrix neutral
/// under multiplication. An implementing type proves each law once; proofs
/// about matrices of that type may then rely on them.
pub trait RingElem: ZeroElem + OneElem + AddElem + MulElem {
    /// Adding the additive identity on the left changes nothing.
    proof fn add_zero_left(x: Self)
        ensures
            Self::zero_spec().add_spec(x) == x,
    ;

    /// Adding the additive identity on the right changes nothing.
    proof fn add_zero_right(x: Self)
        ensures
            x.add_spec(Self::zero_spec()) == x,
    ;

    /// The additive identity annihilates on the left.
    proof fn mul_zero_left(x: Self)
        ensures
            Self::zero_spec().mul_spec(x) == Self::zero_spec(),
    ;

    /// The additive identity annihilates on the right.
    proof fn mul_zero_right(x: Self)
        ensures
            x.mul_spec(Self::zero_spec()) == Self::zero_spec(),
    ;

    /// The multiplicative identity is neutral on the left.
    proof fn mul_one_left(x: Self)
        ensures
            Self::one_spec().mul_spec(x) == x,
    ;

    /// The multiplicative identity is neutral on the right.
    proof fn mul_one_right(x: Self)
        ensures
            x.mul_spec(Self::one_spec()) == x,
    ;
}

impl AddElem for i64 {
    open spec fn add_ok(self, rhs: i64) -> bool {
        i64::MIN <= self + rhs <= i64::MAX
    }

    open spec fn add_spec(self, rhs: i64) -> i64 {
        (self + rhs) as i64
    }

    fn add_elem(self, rhs: i64) -> i64 {
        self + rhs
    }
}

impl SubElem for i64 {
    open spec fn sub_ok(self, rhs: i64) -> bool {
        i64::MIN <= self - rhs <= i64::MAX
    }

    open spec fn sub_spec(self, rhs: i64) -> i64 {
        (self - rhs) as i64
    }

    fn sub_elem(self, rhs: i64) -> i64 {
        self - rhs
    }
}

impl MulElem for i64 {
    open spec fn mul_ok(self, rhs: i64) -> bool {
        i64::MIN <= self * rhs <= i64::MAX
    }

    open spec fn mul_spec(self, rhs: i64) -> i64 {
        (self * rhs) as i64
    }

    fn mul_elem(self, rhs: i64) -> i64 {
        proof {
            assert(i64::MIN <= self * rhs <= i64::MAX);
        }
        self * rhs
    }
}

impl ZeroElem for i64 {
    open spec fn zero_spec() -> i64 {
        0
    }

    fn zero_elem() -> i64 {
        0
    }
}

impl OneElem for i64 {
    open spec fn one_spec() -> i64 {
        1
    }

    fn one_elem() -> i64 {
        1
    }
}

impl RingElem for i64 {
    proof fn add_zero_left(x: i64) {
    }

    proof fn add_zero_right(x: i64) {
    }

    proof fn mul_zero_left(x: i64) {
        assert(0 * x == 0) by (nonlinear_arith);
    }

    proof fn mul_zero_right(x: i64) {
        assert(x * 0 == 0) by (nonlinear_arith);
    }

    proof fn mul_one_left(x: i64) {
        assert(1 * x == x) by (nonlinear_arith);
    }

    proof fn mul_one_right(x: i64) {
        assert(x * 1 == x) by (nonlinear_arith);
    }
}

} // verus!
