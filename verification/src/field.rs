use vstd::prelude::*;
use std::ops::Add;
use std::ops::Mul;
use vstd::std_specs::ops::AddSpec;
use vstd::std_specs::ops::MulSpec;
use vstd::std_specs::cmp::PartialEqSpec;
use crate::error::MatrixError;

verus! {

/// The scalar capability: a field, with `+`, `*` and `==` taken from the
/// standard operator traits and the identities and inverses given here.
///
/// In contracts, the sum and product of two scalars are written
/// `a.add_spec(b)` and `a.mul_spec(b)`. An implementation proves the field
/// axioms once; everything above is verified for every such implementation.
pub trait Group: Sized + Copy + Add<Output = Self> + Mul<Output = Self> + PartialEq {
    /// The additive identity.
    spec fn zero() -> Self;

    /// The multiplicative identity.
    spec fn one() -> Self;

    /// The additive inverse.
    spec fn neg(self) -> Self;

    /// The multiplicative inverse; meaningful only away from `zero()`.
    spec fn recip(self) -> Self;

    /// `+`, `*` and `==` are total, and compute what their specifications
    /// say; `==` is equality of values.
    proof fn lemma_operators()
        ensures
            Self::obeys_add_spec(),
            Self::obeys_mul_spec(),
            Self::obeys_eq_spec(),
            forall|a: Self, b: Self| #[trigger] a.add_req(b),
            forall|a: Self, b: Self| #[trigger] a.mul_req(b),
            forall|a: Self, b: Self| #[trigger] a.eq_spec(&b) <==> a == b,
    ;

    /// `(a + b) + c == a + (b + c)`.
    proof fn lemma_add_associative(a: Self, b: Self, c: Self)
        ensures
            a.add_spec(b).add_spec(c) == a.add_spec(b.add_spec(c)),
    ;

    /// `a + b == b + a`.
    proof fn lemma_add_commutative(a: Self, b: Self)
        ensures
            a.add_spec(b) == b.add_spec(a),
    ;

    /// `a + 0 == a`.
    proof fn lemma_add_identity(a: Self)
        ensures
            a.add_spec(Self::zero()) == a,
    ;

    /// `a + (-a) == 0`.
    proof fn lemma_add_inverse(a: Self)
        ensures
            a.add_spec(a.neg()) == Self::zero(),
    ;

    /// `(a * b) * c == a * (b * c)`.
    proof fn lemma_mul_associative(a: Self, b: Self, c: Self)
        ensures
            a.mul_spec(b).mul_spec(c) == a.mul_spec(b.mul_spec(c)),
    ;

    /// `a * b == b * a`.
    proof fn lemma_mul_commutative(a: Self, b: Self)
        ensures
            a.mul_spec(b) == b.mul_spec(a),
    ;

    /// `a * 1 == a`.
    proof fn lemma_mul_identity(a: Self)
        ensures
            a.mul_spec(Self::one()) == a,
    ;

    /// `a * (1/a) == 1` for every `a` other than zero.
    proof fn lemma_mul_inverse(a: Self)
        requires
            a != Self::zero(),
        ensures
            a.mul_spec(a.recip()) == Self::one(),
    ;

    /// `a * (b + c) == a * b + a * c`.
    proof fn lemma_distributive(a: Self, b: Self, c: Self)
        ensures
            a.mul_spec(b.add_spec(c)) == a.mul_spec(b).add_spec(a.mul_spec(c)),
    ;

    /// One is not zero.
    proof fn lemma_nontrivial()
        ensures
            Self::one() != Self::zero(),
    ;

    /// The multiplicative inverse of `self`, or `DivisionByZero` for the
    /// additive identity.
    fn get_inverse_mul(&self) -> (r: Result<Self, MatrixError>)
        ensures
            *self == Self::zero() ==> r == Err::<Self, MatrixError>(MatrixError::DivisionByZero),
            *self != Self::zero() ==> r == Ok::<Self, MatrixError>(self.recip()),
    ;

    /// The multiplicative identity.
    fn get_identity_mul() -> (r: Self)
        ensures
            r == Self::one(),
    ;

    /// The additive identity.
    fn get_identity_add() -> (r: Self)
        ensures
            r == Self::zero(),
    ;

    /// The additive inverse of `self`.
    fn get_inverse_add(&self) -> (r: Self)
        ensures
            r == self.neg(),
    ;
}

/// `0 + a == a`.
pub proof fn lemma_zero_add<T: Group>(a: T)
    ensures
        T::zero().add_spec(a) == a,
{
    T::lemma_add_commutative(T::zero(), a);
    T::lemma_add_identity(a);
}

/// Equal sums with a common right summand have equal left summands.
pub proof fn lemma_add_cancel<T: Group>(a: T, b: T, c: T)
    requires
        a.add_spec(c) == b.add_spec(c),
    ensures
        a == b,
{
    T::lemma_add_associative(a, c, c.neg());
    T::lemma_add_associative(b, c, c.neg());
    T::lemma_add_inverse(c);
    T::lemma_add_identity(a);
    T::lemma_add_identity(b);
}

/// `(a + b) * c == a * c + b * c`.
pub proof fn lemma_distributive_right<T: Group>(a: T, b: T, c: T)
    ensures
        a.add_spec(b).mul_spec(c) == a.mul_spec(c).add_spec(b.mul_spec(c)),
{
    T::lemma_mul_commutative(a.add_spec(b), c);
    T::lemma_distributive(c, a, b);
    T::lemma_mul_commutative(c, a);
    T::lemma_mul_commutative(c, b);
}

/// `a * 0 == 0` and `0 * a == 0`.
pub proof fn lemma_mul_zero<T: Group>(a: T)
    ensures
        a.mul_spec(T::zero()) == T::zero(),
        T::zero().mul_spec(a) == T::zero(),
{
    let z = T::zero();
    let p = a.mul_spec(z);
    T::lemma_add_identity(z);
    T::lemma_distributive(a, z, z);
    // p == p + p, so 0 + p == p + p
    lemma_zero_add(p);
    lemma_add_cancel(z, p, p);
    T::lemma_mul_commutative(a, z);
}

/// `(a + b) + c == (a + c) + b`.
pub proof fn lemma_add_swap_right<T: Group>(a: T, b: T, c: T)
    ensures
        a.add_spec(b).add_spec(c) == a.add_spec(c).add_spec(b),
{
    T::lemma_add_associative(a, b, c);
    T::lemma_add_associative(a, c, b);
    T::lemma_add_commutative(b, c);
}

/// `(a + b) + (c + d) == (a + c) + (b + d)`.
pub proof fn lemma_add_interchange<T: Group>(a: T, b: T, c: T, d: T)
    ensures
        a.add_spec(b).add_spec(c.add_spec(d)) == a.add_spec(c).add_spec(b.add_spec(d)),
{
    T::lemma_add_associative(a, b, c.add_spec(d));
    T::lemma_add_associative(b, c, d);
    T::lemma_add_commutative(b, c);
    T::lemma_add_associative(c, b, d);
    T::lemma_add_associative(a, c, b.add_spec(d));
}

/// `(a * b) * c == (a * c) * b`.
pub proof fn lemma_mul_swap_right<T: Group>(a: T, b: T, c: T)
    ensures
        a.mul_spec(b).mul_spec(c) == a.mul_spec(c).mul_spec(b),
{
    T::lemma_mul_associative(a, b, c);
    T::lemma_mul_associative(a, c, b);
    T::lemma_mul_commutative(b, c);
}

/// `a * (-b) == -(a * b)`, stated as `a * b + a * (-b) == 0`.
pub proof fn lemma_mul_neg<T: Group>(a: T, b: T)
    ensures
        a.mul_spec(b).add_spec(a.mul_spec(b.neg())) == T::zero(),
{
    T::lemma_distributive(a, b, b.neg());
    T::lemma_add_inverse(b);
    lemma_mul_zero(a);
}

/// The multiplicative inverse of a non-zero scalar is non-zero.
pub proof fn lemma_recip_nonzero<T: Group>(a: T)
    requires
        a != T::zero(),
    ensures
        a.recip() != T::zero(),
{
    T::lemma_mul_inverse(a);
    lemma_mul_zero(a);
    T::lemma_nontrivial();
}

} // verus!
