//! The operations that the hash constraints need of the values they run on.
use crate::ext::EF;
use crate::field::F;
use vstd::prelude::*;

verus! {

/// The operations of a ring that contains the base field.
pub trait Ring: Sized {
    spec fn nought() -> Self;

    spec fn plus_spec(self, b: Self) -> Self;

    spec fn minus_spec(self, b: Self) -> Self;

    spec fn times_spec(self, b: Self) -> Self;

    /// The sum with an element of the base field.
    spec fn plus_base_spec(self, k: F) -> Self;

    /// The product with an element of the base field.
    spec fn times_base_spec(self, k: F) -> Self;
}

/// The same operations on values at run time.
pub trait Algebra: Ring + Copy {
    fn zero_value() -> (r: Self)
        ensures
            r == Self::nought(),
    ;

    fn plus(self, b: Self) -> (r: Self)
        ensures
            r == self.plus_spec(b),
    ;

    fn minus(self, b: Self) -> (r: Self)
        ensures
            r == self.minus_spec(b),
    ;

    fn times(self, b: Self) -> (r: Self)
        ensures
            r == self.times_spec(b),
    ;

    fn plus_base(self, k: F) -> (r: Self)
        ensures
            r == self.plus_base_spec(k),
    ;

    fn times_base(self, k: F) -> (r: Self)
        ensures
            r == self.times_base_spec(k),
    ;
}

impl Ring for F {
    open spec fn nought() -> F {
        F::zero_spec()
    }

    open spec fn plus_spec(self, b: F) -> F {
        self + b
    }

    open spec fn minus_spec(self, b: F) -> F {
        self - b
    }

    open spec fn times_spec(self, b: F) -> F {
        self * b
    }

    open spec fn plus_base_spec(self, k: F) -> F {
        self + k
    }

    open spec fn times_base_spec(self, k: F) -> F {
        self * k
    }
}

impl Algebra for F {
    fn zero_value() -> (r: F) {
        F::zero()
    }

    fn plus(self, b: F) -> (r: F) {
        self.add(b)
    }

    fn minus(self, b: F) -> (r: F) {
        self.sub(b)
    }

    fn times(self, b: F) -> (r: F) {
        self.mul(b)
    }

    fn plus_base(self, k: F) -> (r: F) {
        self.add(k)
    }

    fn times_base(self, k: F) -> (r: F) {
        self.mul(k)
    }
}

impl Ring for EF {
    open spec fn nought() -> EF {
        EF::zero_spec()
    }

    open spec fn plus_spec(self, b: EF) -> EF {
        self + b
    }

    open spec fn minus_spec(self, b: EF) -> EF {
        self - b
    }

    open spec fn times_spec(self, b: EF) -> EF {
        self * b
    }

    open spec fn plus_base_spec(self, k: F) -> EF {
        self + EF::from_base_spec(k)
    }

    open spec fn times_base_spec(self, k: F) -> EF {
        self.scale_spec(k)
    }
}

impl Algebra for EF {
    fn zero_value() -> (r: EF) {
        EF::zero()
    }

    fn plus(self, b: EF) -> (r: EF) {
        self.add(b)
    }

    fn minus(self, b: EF) -> (r: EF) {
        self.sub(b)
    }

    fn times(self, b: EF) -> (r: EF) {
        self.mul(b)
    }

    fn plus_base(self, k: F) -> (r: EF) {
        self.add(EF::from_base(k))
    }

    fn times_base(self, k: F) -> (r: EF) {
        self.scale(k)
    }
}

} // verus!
