use vstd::prelude::*;

verus! {

/// The complex numbers a transform computes with. Each operation is a
/// function of its arguments, named by a spec function, so that what a plan
/// computes can be stated as a composition of these operations. What the
/// operations are (single-precision complex arithmetic, say) is up to the
/// number type: the engine knows nothing of them beyond their names, and a
/// type that does not define them leaves them unspecified.
pub trait Scalar: Copy + Sized {
    closed spec fn spec_zero() -> Self {
        arbitrary()
    }

    closed spec fn spec_one() -> Self {
        arbitrary()
    }

    closed spec fn spec_imag_unit() -> Self {
        arbitrary()
    }

    closed spec fn spec_sin_pi(a: int, b: int) -> Self {
        arbitrary()
    }

    closed spec fn spec_cos_pi(a: int, b: int) -> Self {
        arbitrary()
    }

    closed spec fn spec_root(k: int, n: int) -> Self {
        arbitrary()
    }

    closed spec fn spec_plus(a: Self, b: Self) -> Self {
        arbitrary()
    }

    closed spec fn spec_minus(a: Self, b: Self) -> Self {
        arbitrary()
    }

    closed spec fn spec_times(a: Self, b: Self) -> Self {
        arbitrary()
    }

    closed spec fn spec_conj(a: Self) -> Self {
        arbitrary()
    }

    closed spec fn spec_div_by(a: Self, d: int) -> Self {
        arbitrary()
    }

    /// `0`.
    fn zero() -> (r: Self)
        ensures
            r == Self::spec_zero(),
    ;

    /// `1`.
    fn one() -> (r: Self)
        ensures
            r == Self::spec_one(),
    ;

    /// The imaginary unit `i`.
    fn imag_unit() -> (r: Self)
        ensures
            r == Self::spec_imag_unit(),
    ;

    /// The real number `sin(pi * a / b)`.
    fn sin_pi(a: usize, b: usize) -> (r: Self)
        ensures
            r == Self::spec_sin_pi(a as int, b as int),
    ;

    /// The real number `cos(pi * a / b)`.
    fn cos_pi(a: usize, b: usize) -> (r: Self)
        ensures
            r == Self::spec_cos_pi(a as int, b as int),
    ;

    /// The twiddle factor `exp(-2 pi i k / n)`.
    fn root(k: usize, n: usize) -> (r: Self)
        ensures
            r == Self::spec_root(k as int, n as int),
    ;

    fn plus(&self, o: &Self) -> (r: Self)
        ensures
            r == Self::spec_plus(*self, *o),
    ;

    fn minus(&self, o: &Self) -> (r: Self)
        ensures
            r == Self::spec_minus(*self, *o),
    ;

    fn times(&self, o: &Self) -> (r: Self)
        ensures
            r == Self::spec_times(*self, *o),
    ;

    /// Complex conjugate.
    fn conj(&self) -> (r: Self)
        ensures
            r == Self::spec_conj(*self),
    ;

    /// Division by a positive integer.
    fn div_by(&self, d: usize) -> (r: Self)
        ensures
            r == Self::spec_div_by(*self, d as int),
    ;
}

} // verus!
