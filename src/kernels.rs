use crate::scalar::Scalar;
use vstd::prelude::*;

verus! {

/// `a + b`, `a - b`, `a * b` (`sum`, `dif`, `prod`) over the number type's operations.
pub open spec fn sum<T: Scalar>(a: T, b: T) -> T {
    T::spec_plus(a, b)
}

pub open spec fn dif<T: Scalar>(a: T, b: T) -> T {
    T::spec_minus(a, b)
}

pub open spec fn prod<T: Scalar>(a: T, b: T) -> T {
    T::spec_times(a, b)
}

/// The size-2 butterfly: sum and difference.
pub open spec fn kernel2_output<T: Scalar>(x: Seq<T>) -> Seq<T> {
    seq![sum(x[0], x[1]), dif(x[0], x[1])]
}

/// The size-3 butterfly.
pub open spec fn kernel3_output<T: Scalar>(x: Seq<T>) -> Seq<T> {
    let s = prod(T::spec_sin_pi(1, 3), T::spec_imag_unit());
    let t0 = prod(dif(x[1], x[2]), s);
    let u0 = sum(x[1], x[2]);
    let u1 = dif(x[0], T::spec_div_by(u0, 2));
    seq![sum(x[0], u0), dif(u1, t0), sum(u1, t0)]
}

/// The size-4 butterfly: two radix-2 stages.
pub open spec fn kernel4_output<T: Scalar>(x: Seq<T>) -> Seq<T> {
    let t0 = sum(x[0], x[2]);
    let t1 = sum(x[3], x[1]);
    let u0 = dif(x[0], x[2]);
    let u1 = prod(dif(x[3], x[1]), T::spec_imag_unit());
    seq![sum(t0, t1), sum(u0, u1), dif(t0, t1), dif(u0, u1)]
}

/// The size-5 butterfly, with `sin(2 pi / 5)`, `sin(pi / 5)` and
/// `cos(pi / 5) - 1/4`.
pub open spec fn kernel5_output<T: Scalar>(x: Seq<T>) -> Seq<T> {
    let i = T::spec_imag_unit();
    let b = T::spec_sin_pi(2, 5);
    let c = T::spec_sin_pi(1, 5);
    let d = dif(T::spec_cos_pi(1, 5), T::spec_div_by(T::spec_one(), 4));
    let t0 = sum(x[1], x[4]);
    let t1 = sum(x[2], x[3]);
    let t2 = prod(dif(t0, t1), d);
    let u0 = dif(x[1], x[4]);
    let u1 = dif(x[2], x[3]);
    let u2 = sum(t0, t1);
    let u3 = dif(x[0], T::spec_div_by(u2, 4));
    let t4 = sum(u3, t2);
    let t5 = prod(sum(prod(u0, b), prod(u1, c)), i);
    let u4 = dif(u3, t2);
    let u5 = prod(dif(prod(u1, b), prod(u0, c)), i);
    seq![sum(x[0], u2), dif(t4, t5), sum(u4, u5), dif(u4, u5), sum(t4, t5)]
}

/// The size-6 butterfly, with `sin(pi / 3)`.
pub open spec fn kernel6_output<T: Scalar>(x: Seq<T>) -> Seq<T> {
    let i = T::spec_imag_unit();
    let b = T::spec_sin_pi(1, 3);
    let t0 = sum(x[0], x[3]);
    let t1 = sum(x[4], x[1]);
    let t2 = sum(x[2], x[5]);
    let t3 = dif(t0, T::spec_div_by(sum(t1, t2), 2));
    let t4 = prod(dif(t1, t2), i);
    let u0 = dif(x[0], x[3]);
    let u1 = dif(x[4], x[1]);
    let u2 = dif(x[2], x[5]);
    let u3 = dif(u0, T::spec_div_by(sum(u1, u2), 2));
    let u4 = prod(dif(u1, u2), i);
    seq![
        sum(sum(t0, t1), t2),
        sum(u3, prod(u4, b)),
        dif(t3, prod(t4, b)),
        sum(sum(u0, u1), u2),
        sum(t3, prod(t4, b)),
        dif(u3, prod(u4, b)),
    ]
}

/// The size-8 butterfly, with `sin(pi / 4)`.
pub open spec fn kernel8_output<T: Scalar>(x: Seq<T>) -> Seq<T> {
    let i = T::spec_imag_unit();
    let a = T::spec_sin_pi(1, 4);
    let t0 = dif(x[7], x[3]);
    let t1 = dif(x[1], x[5]);
    let t2 = sum(x[0], x[4]);
    let t3 = sum(x[2], x[6]);
    let t4 = prod(sum(t0, t1), a);
    let u0 = sum(x[7], x[3]);
    let u1 = sum(x[1], x[5]);
    let u2 = dif(x[0], x[4]);
    let u3 = dif(x[2], x[6]);
    let u4 = prod(dif(t0, t1), a);
    let t5 = sum(t2, t3);
    let t6 = sum(u2, t4);
    let t7 = sum(u0, u1);
    let t8 = prod(dif(u4, u3), i);
    let u5 = dif(t2, t3);
    let u6 = dif(u2, t4);
    let u7 = prod(dif(u0, u1), i);
    let u8 = prod(sum(u4, u3), i);
    seq![
        sum(t5, t7),
        sum(t6, t8),
        sum(u5, u7),
        sum(u6, u8),
        dif(t5, t7),
        dif(u6, u8),
        dif(u5, u7),
        dif(t6, t8),
    ]
}

/// What the kernel of size `n` computes from `x`: the identity for size 1,
/// else the butterfly of that size.
pub open spec fn kernel_output<T: Scalar>(n: int, x: Seq<T>) -> Seq<T> {
    if n == 1 {
        seq![x[0]]
    } else if n == 2 {
        kernel2_output(x)
    } else if n == 3 {
        kernel3_output(x)
    } else if n == 4 {
        kernel4_output(x)
    } else if n == 5 {
        kernel5_output(x)
    } else if n == 6 {
        kernel6_output(x)
    } else {
        kernel8_output(x)
    }
}

/// A hard-coded transform of a fixed small size, written as the standard
/// butterfly expressions.
pub trait DftKernel {
    spec fn spec_size() -> nat;

    fn size() -> (r: usize)
        ensures
            r == Self::spec_size(),
    ;

    /// The forward transform of `x`.
    fn transform<T: Scalar>(x: &[T]) -> (r: Vec<T>)
        requires
            x@.len() == Self::spec_size(),
        ensures
            r@ == kernel_output(Self::spec_size() as int, x@),
    ;
}

/// Size-1 kernel: the identity.
pub struct Kernel1;

/// Size-2 kernel: sum and difference.
pub struct Kernel2;

/// Size-3 kernel, with the constant `sin(pi / 3)`.
pub struct Kernel3;

/// Size-4 kernel: two radix-2 stages.
pub struct Kernel4;

/// Size-5 kernel, with `sin(2 pi / 5)`, `sin(pi / 5)` and `cos(pi / 5)`.
pub struct Kernel5;

/// Size-6 kernel, with `sin(pi / 3)`.
pub struct Kernel6;

/// Size-8 kernel, with `sin(pi / 4)`.
pub struct Kernel8;

impl DftKernel for Kernel1 {
    open spec fn spec_size() -> nat {
        1
    }

    fn size() -> (r: usize) {
        1
    }

    fn transform<T: Scalar>(x: &[T]) -> (r: Vec<T>) {
        vec![x[0]]
    }
}

impl DftKernel for Kernel2 {
    open spec fn spec_size() -> nat {
        2
    }

    fn size() -> (r: usize) {
        2
    }

    fn transform<T: Scalar>(x: &[T]) -> (r: Vec<T>) {
        vec![x[0].plus(&x[1]), x[0].minus(&x[1])]
    }
}

impl DftKernel for Kernel3 {
    open spec fn spec_size() -> nat {
        3
    }

    fn size() -> (r: usize) {
        3
    }

    fn transform<T: Scalar>(x: &[T]) -> (r: Vec<T>) {
        let s = T::sin_pi(1, 3).times(&T::imag_unit());
        let t0 = x[1].minus(&x[2]).times(&s);
        let u0 = x[1].plus(&x[2]);
        let u1 = x[0].minus(&u0.div_by(2));
        vec![x[0].plus(&u0), u1.minus(&t0), u1.plus(&t0)]
    }
}

impl DftKernel for Kernel4 {
    open spec fn spec_size() -> nat {
        4
    }

    fn size() -> (r: usize) {
        4
    }

    fn transform<T: Scalar>(x: &[T]) -> (r: Vec<T>) {
        let t0 = x[0].plus(&x[2]);
        let t1 = x[3].plus(&x[1]);
        let u0 = x[0].minus(&x[2]);
        let u1 = x[3].minus(&x[1]).times(&T::imag_unit());
        vec![t0.plus(&t1), u0.plus(&u1), t0.minus(&t1), u0.minus(&u1)]
    }
}

impl DftKernel for Kernel5 {
    open spec fn spec_size() -> nat {
        5
    }

    fn size() -> (r: usize) {
        5
    }

    fn transform<T: Scalar>(x: &[T]) -> (r: Vec<T>) {
        let i = T::imag_unit();
        let b = T::sin_pi(2, 5);
        let c = T::sin_pi(1, 5);
        let d = T::cos_pi(1, 5).minus(&T::one().div_by(4));
        let t0 = x[1].plus(&x[4]);
        let t1 = x[2].plus(&x[3]);
        let t2 = t0.minus(&t1).times(&d);
        let u0 = x[1].minus(&x[4]);
        let u1 = x[2].minus(&x[3]);
        let u2 = t0.plus(&t1);
        let u3 = x[0].minus(&u2.div_by(4));
        let t4 = u3.plus(&t2);
        let t5 = u0.times(&b).plus(&u1.times(&c)).times(&i);
        let u4 = u3.minus(&t2);
        let u5 = u1.times(&b).minus(&u0.times(&c)).times(&i);
        vec![x[0].plus(&u2), t4.minus(&t5), u4.plus(&u5), u4.minus(&u5), t4.plus(&t5)]
    }
}

impl DftKernel for Kernel6 {
    open spec fn spec_size() -> nat {
        6
    }

    fn size() -> (r: usize) {
        6
    }

    fn transform<T: Scalar>(x: &[T]) -> (r: Vec<T>) {
        let i = T::imag_unit();
        let b = T::sin_pi(1, 3);
        let t0 = x[0].plus(&x[3]);
        let t1 = x[4].plus(&x[1]);
        let t2 = x[2].plus(&x[5]);
        let t3 = t0.minus(&t1.plus(&t2).div_by(2));
        let t4 = t1.minus(&t2).times(&i);
        let u0 = x[0].minus(&x[3]);
        let u1 = x[4].minus(&x[1]);
        let u2 = x[2].minus(&x[5]);
        let u3 = u0.minus(&u1.plus(&u2).div_by(2));
        let u4 = u1.minus(&u2).times(&i);
        vec![
            t0.plus(&t1).plus(&t2),
            u3.plus(&u4.times(&b)),
            t3.minus(&t4.times(&b)),
            u0.plus(&u1).plus(&u2),
            t3.plus(&t4.times(&b)),
            u3.minus(&u4.times(&b)),
        ]
    }
}

impl DftKernel for Kernel8 {
    open spec fn spec_size() -> nat {
        8
    }

    fn size() -> (r: usize) {
        8
    }

    fn transform<T: Scalar>(x: &[T]) -> (r: Vec<T>) {
        let i = T::imag_unit();
        let a = T::sin_pi(1, 4);
        let t0 = x[7].minus(&x[3]);
        let t1 = x[1].minus(&x[5]);
        let t2 = x[0].plus(&x[4]);
        let t3 = x[2].plus(&x[6]);
        let t4 = t0.plus(&t1).times(&a);
        let u0 = x[7].plus(&x[3]);
        let u1 = x[1].plus(&x[5]);
        let u2 = x[0].minus(&x[4]);
        let u3 = x[2].minus(&x[6]);
        let u4 = t0.minus(&t1).times(&a);
        let t5 = t2.plus(&t3);
        let t6 = u2.plus(&t4);
        let t7 = u0.plus(&u1);
        let t8 = u4.minus(&u3).times(&i);
        let u5 = t2.minus(&t3);
        let u6 = u2.minus(&t4);
        let u7 = u0.minus(&u1).times(&i);
        let u8 = u4.plus(&u3).times(&i);
        vec![
            t5.plus(&t7),
            t6.plus(&t8),
            u5.plus(&u7),
            u6.plus(&u8),
            t5.minus(&t7),
            u6.minus(&u8),
            u5.minus(&u7),
            t6.minus(&t8),
        ]
    }
}

} // verus!
