use vstd::prelude::*;
use std::ops::Add;
use std::ops::Mul;
use vstd::std_specs::ops::AddSpec;
use vstd::std_specs::ops::MulSpec;
use vstd::std_specs::cmp::PartialEqSpec;
use crate::error::MatrixError;
use crate::field::Group;

verus! {

/// The field of two elements: `false` is zero, `true` is one, the sum is
/// "exactly one of both" and the product is "both". Every law of the scalar
/// capability is proved of it, so what the library proves holds of bit
/// matrices without further assumption.
#[derive(Clone, Copy, Debug)]
pub struct Gf2(pub bool);

impl vstd::std_specs::ops::AddSpecImpl for Gf2 {
    open spec fn obeys_add_spec() -> bool {
        true
    }

    open spec fn add_req(self, other: Gf2) -> bool {
        true
    }

    open spec fn add_spec(self, other: Gf2) -> Gf2 {
        Gf2(self.0 != other.0)
    }
}

impl Add for Gf2 {
    type Output = Gf2;

    fn add(self, other: Gf2) -> (r: Gf2) {
        Gf2(self.0 != other.0)
    }
}

impl vstd::std_specs::ops::MulSpecImpl for Gf2 {
    open spec fn obeys_mul_spec() -> bool {
        true
    }

    open spec fn mul_req(self, other: Gf2) -> bool {
        true
    }

    open spec fn mul_spec(self, other: Gf2) -> Gf2 {
        Gf2(self.0 && other.0)
    }
}

impl Mul for Gf2 {
    type Output = Gf2;

    fn mul(self, other: Gf2) -> (r: Gf2) {
        Gf2(self.0 && other.0)
    }
}

impl vstd::std_specs::cmp::PartialEqSpecImpl for Gf2 {
    open spec fn obeys_eq_spec() -> bool {
        true
    }

    open spec fn eq_spec(&self, other: &Gf2) -> bool {
        self.0 == other.0
    }
}

impl PartialEq for Gf2 {
    fn eq(&self, other: &Gf2) -> (r: bool) {
        self.0 == other.0
    }
}

impl Group for Gf2 {
    open spec fn zero() -> Gf2 {
        Gf2(false)
    }

    open spec fn one() -> Gf2 {
        Gf2(true)
    }

    open spec fn neg(self) -> Gf2 {
        self
    }

    open spec fn recip(self) -> Gf2 {
        self
    }

    proof fn lemma_operators() {
    }

    proof fn lemma_add_associative(a: Gf2, b: Gf2, c: Gf2) {
    }

    proof fn lemma_add_commutative(a: Gf2, b: Gf2) {
    }

    proof fn lemma_add_identity(a: Gf2) {
    }

    proof fn lemma_add_inverse(a: Gf2) {
    }

    proof fn lemma_mul_associative(a: Gf2, b: Gf2, c: Gf2) {
    }

    proof fn lemma_mul_commutative(a: Gf2, b: Gf2) {
    }

    proof fn lemma_mul_identity(a: Gf2) {
    }

    proof fn lemma_mul_inverse(a: Gf2) {
    }

    proof fn lemma_distributive(a: Gf2, b: Gf2, c: Gf2) {
    }

    proof fn lemma_nontrivial() {
    }

    fn get_inverse_mul(&self) -> (r: Result<Gf2, MatrixError>) {
        if self.0 {
            Ok(*self)
        } else {
            Err(MatrixError::DivisionByZero)
        }
    }

    fn get_identity_mul() -> (r: Gf2) {
        Gf2(true)
    }

    fn get_identity_add() -> (r: Gf2) {
        Gf2(false)
    }

    fn get_inverse_add(&self) -> (r: Gf2) {
        *self
    }
}

} // verus!
