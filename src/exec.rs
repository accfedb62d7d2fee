use crate::bluestein::{is_pow2, kernel_source};
use crate::factors::smallest_factor;
use crate::kernels::{
    kernel_output, prod, sum, DftKernel, Kernel1, Kernel2, Kernel3, Kernel4, Kernel5, Kernel6, Kernel8,
};
use crate::layout::{
    batch_stride, batch_widths, distinct_positions, effective_batch_stride, fits, gather, gather_indexed,
    greedy_batches, lemma_block_index, lemma_greedy_batches, lemma_strided_pos, offset, scatter, strided_pos,
    total,
};
use crate::plan::{is_kernel_size, link_ok, lemma_pow2_split, lemma_prime_not_pow2, plan_measure, Plan, Planner};
use crate::prime_cache::as_ints;
use crate::radix::twiddle_exponent;
use crate::scalar::Scalar;
use vstd::arithmetic::div_mod::*;
use vstd::prelude::*;

verus! {

/// Outputs of `count` transforms of length `n` of the plan `id`, held one
/// after another in `block`: entry `j` is entry `j mod n` of the output of
/// the transform that holds it.
pub open spec fn batch_output<T: Scalar>(plans: Seq<Plan>, id: int, block: Seq<T>, n: int, count: int) -> Seq<T>
    decreases id, 1int,
{
    Seq::new(
        (n * count) as nat,
        |j: int| plan_output(plans, id, block.subrange((j / n) * n, (j / n) * n + n))[j % n],
    )
}

/// Rader's output placement: starting from `base`, entry `c[k]`, conjugated,
/// goes to position `inv[k]`, for `k` in `[0, len)`, in order.
pub open spec fn rader_place<T: Scalar>(base: Seq<T>, inv: Seq<int>, c: Seq<T>, len: int) -> Seq<T>
    decreases len,
{
    if len <= 0 {
        base
    } else {
        rader_place(base, inv, c, len - 1).update(inv[len - 1], T::spec_conj(c[len - 1]))
    }
}

/// What the plan `id` computes from one transform's input `x`, in the
/// number type's operations.
///
/// - Kernel: the butterfly of its size.
/// - Mixed radix, `n = p * q`: column `b` holds entries `a * p + b`; the
///   size-`q` plan transforms the `p` columns; entry `b * q + c` is multiplied
///   by the twiddle `w_n^(c * b)`; row `c` holds entries `c + q * d`; the
///   size-`p` plan transforms the `q` rows; output `d * q + c` is entry `d` of
///   row `c`.
/// - Rader, prime `n`: the inputs `x[g^k]` go through the size-`(n-1)` plan,
///   are multiplied by the transformed kernel `w(g^-k)` / `(n-1)` (bin 0 also
///   gets `x[0]`), conjugated, transformed again, conjugated and written to
///   `X[g^-k]`; `X[0] = x[0]` plus bin 0 of the first transform.
/// - Bluestein: `x[k]` times the chirp `w0[k]`, zero-padded to `nb`, is
///   transformed, conjugated, multiplied by the transformed kernel, transformed
///   again; output `k` is that entry conjugated, times `w0[k]`.
pub open spec fn plan_output<T: Scalar>(plans: Seq<Plan>, id: int, x: Seq<T>) -> Seq<T>
    decreases id, 0int,
{
    if 0 <= id < plans.len() {
        match plans[id] {
            Plan::Kernel { n } => kernel_output(n as int, x),
            Plan::MixedRadix { radix, dft_p, dft_q } => {
                let n = radix.spec_n();
                let p = radix.spec_p();
                let q = radix.spec_q();
                let cols = Seq::new(n as nat, |j: int| x[strided_pos(j, q, p, 1)]);
                let y = match dft_q {
                    Some(s) => if (s as int) < id {
                        batch_output(plans, s as int, cols, q, p)
                    } else {
                        cols
                    },
                    None => cols,
                };
                let y2 = Seq::new(n as nat, |a: int| prod(y[a], T::spec_root(twiddle_exponent(a, q), n)));
                let rows = Seq::new(n as nat, |j: int| y2[strided_pos(j, p, q, 1)]);
                let z = match dft_p {
                    Some(s) => if (s as int) < id {
                        batch_output(plans, s as int, rows, p, q)
                    } else {
                        rows
                    },
                    None => rows,
                };
                Seq::new(n as nat, |k: int| z[(k % q) * p + k / q])
            },
            Plan::Rader { rader, dft_n1 } => {
                let n = rader.spec_n();
                let m = n - 1;
                let s = dft_n1 as int;
                if s < id {
                    let perm = rader.spec_perm();
                    let inv = rader.spec_inv_perm();
                    let kern = Seq::new(m as nat, |k: int| T::spec_root(inv[k], n));
                    let om = batch_output(plans, s, kern, m, 1);
                    let omega = Seq::new(m as nat, |k: int| T::spec_div_by(om[k], m));
                    let a = Seq::new(m as nat, |k: int| x[perm[k]]);
                    let fa = batch_output(plans, s, a, m, 1);
                    let b = Seq::new(
                        m as nat,
                        |k: int|
                            T::spec_conj(
                                if k == 0 {
                                    sum(prod(fa[k], omega[k]), x[0])
                                } else {
                                    prod(fa[k], omega[k])
                                },
                            ),
                    );
                    let c = batch_output(plans, s, b, m, 1);
                    let base = Seq::new(
                        n as nat,
                        |j: int|
                            if j == 0 {
                                sum(x[0], fa[0])
                            } else {
                                T::spec_zero()
                            },
                    );
                    rader_place(base, inv, c, m)
                } else {
                    x
                }
            },
            Plan::Bluestein { bluestein, dft_nb } => {
                let n = bluestein.spec_n();
                let nb = bluestein.spec_nb();
                let s = dft_nb as int;
                if s < id {
                    let w0 = Seq::new(n as nat, |k: int| T::spec_root(bluestein.spec_chirp()[k], 2 * n));
                    let w1 = Seq::new(
                        nb as nat,
                        |j: int|
                            match kernel_source(j, n, nb) {
                                Some(src) => T::spec_div_by(w0[src], nb),
                                None => T::spec_zero(),
                            },
                    );
                    let kernel = batch_output(plans, s, w1, nb, 1);
                    let padded = Seq::new(
                        nb as nat,
                        |j: int|
                            if j < n {
                                prod(x[j], w0[j])
                            } else {
                                T::spec_zero()
                            },
                    );
                    let f = batch_output(plans, s, padded, nb, 1);
                    let g = Seq::new(nb as nat, |j: int| prod(T::spec_conj(f[j]), kernel[j]));
                    let back = batch_output(plans, s, g, nb, 1);
                    Seq::new(n as nat, |k: int| prod(T::spec_conj(back[k]), w0[k]))
                } else {
                    x
                }
            },
        }
    } else {
        x
    }
}

/// Scratch that running a plan of size `n` on `count` transforms may need
/// stays addressable.
pub open spec fn runs_in_bounds(n: int, count: int) -> bool {
    4 * plan_measure(n) * count <= usize::MAX
}

/// `len` copies of zero.
fn zeros<T: Scalar>(len: usize) -> (r: Vec<T>)
    ensures
        r@.len() == len,
        forall|k: int| 0 <= k < len ==> #[trigger] r@[k] == T::spec_zero(),
{
    let mut r: Vec<T> = Vec::new();
    let mut k: usize = 0;
    while k < len
        invariant
            k <= len,
            r@.len() == k,
            forall|j: int| 0 <= j < k ==> #[trigger] r@[j] == T::spec_zero(),
        decreases len - k,
    {
        r.push(T::zero());
        k = k + 1;
    }
    r
}

/// Entries `[start, start + len)` of `src`.
fn copy_range<T: Copy>(src: &[T], start: usize, len: usize) -> (r: Vec<T>)
    requires
        start + len <= src@.len(),
    ensures
        r@ == src@.subrange(start as int, start + len),
{
    let mut r: Vec<T> = Vec::new();
    let slen = src.len();
    let mut k: usize = 0;
    while k < len
        invariant
            slen == src@.len(),
            start + len <= src@.len(),
            k <= len,
            r@ == src@.subrange(start as int, start + k),
        decreases len - k,
    {
        r.push(src[start + k]);
        proof {
            assert(r@ =~= src@.subrange(start as int, start + k + 1));
        }
        k = k + 1;
    }
    r
}

/// Appends `v` to `out`.
fn append<T: Copy>(out: &mut Vec<T>, v: &Vec<T>)
    ensures
        final(out)@ == old(out)@ + v@,
{
    let mut k: usize = 0;
    while k < v.len()
        invariant
            k <= v@.len(),
            out@ == old(out)@ + v@.subrange(0, k as int),
        decreases v@.len() - k,
    {
        out.push(v[k]);
        proof {
            assert(out@ =~= old(out)@ + v@.subrange(0, k + 1));
        }
        k = k + 1;
    }
    proof {
        assert(v@.subrange(0, v@.len() as int) =~= v@);
    }
}

/// The hard-coded kernel of size `n`.
fn run_kernel<T: Scalar>(n: usize, x: &[T]) -> (r: Vec<T>)
    requires
        is_kernel_size(n as int),
        x@.len() == n,
    ensures
        r@ == kernel_output(n as int, x@),
{
    if n == 1 {
        Kernel1::transform(x)
    } else if n == 2 {
        Kernel2::transform(x)
    } else if n == 3 {
        Kernel3::transform(x)
    } else if n == 4 {
        Kernel4::transform(x)
    } else if n == 5 {
        Kernel5::transform(x)
    } else if n == 6 {
        Kernel6::transform(x)
    } else {
        Kernel8::transform(x)
    }
}

proof fn lemma_measure_le(n: int)
    requires
        n >= 0,
    ensures
        n <= plan_measure(n) <= 4 * n,
{
}

proof fn lemma_radix_measure(n: int, p: int, q: int)
    requires
        n >= 2,
        p >= 1,
        q >= 1,
        p * q == n,
        p == smallest_factor(n),
    ensures
        plan_measure(q) * p <= plan_measure(n),
        plan_measure(p) * q <= plan_measure(n),
{
    lemma_measure_le(p);
    lemma_measure_le(q);
    if is_pow2(n) {
        lemma_pow2_split(n);
        assert(q == n / 2) by (nonlinear_arith)
            requires p * q == n, p == 2;
        assert(is_pow2(2int)) by {
            assert(is_pow2(1int));
        }
        assert(plan_measure(q) * p == n) by (nonlinear_arith)
            requires plan_measure(q) == q, p * q == n, p == 2;
        assert(plan_measure(p) * q == n) by (nonlinear_arith)
            requires plan_measure(p) == p, p * q == n;
    } else {
        assert(plan_measure(q) * p <= 4 * n) by (nonlinear_arith)
            requires plan_measure(q) <= 4 * q, p * q == n, p >= 1;
        assert(plan_measure(p) * q <= 4 * n) by (nonlinear_arith)
            requires plan_measure(p) <= 4 * p, p * q == n, q >= 1;
    }
}

proof fn lemma_total_skip(s: Seq<int>, j: int)
    requires
        0 <= j < s.len(),
    ensures
        total(s.skip(j)) == s[j] + total(s.skip(j + 1)),
{
    assert(s.skip(j).drop_first() =~= s.skip(j + 1));
}

/// Transforms `count` transforms of the plan `id`, held one after another
/// in `block`, in batches of eight, four and one; the result has the same
/// layout, each transform's output being what the plan computes from it.
pub fn run<T: Scalar>(planner: &Planner, id: usize, block: &[T], count: usize) -> (r: Vec<T>)
    requires
        planner.wf(),
        id < planner.spec_plans().len(),
        block@.len() == planner.spec_plans()[id as int].spec_size() * count,
        runs_in_bounds(planner.spec_plans()[id as int].spec_size(), count as int),
    ensures
        r@ == batch_output(
            planner.spec_plans(),
            id as int,
            block@,
            planner.spec_plans()[id as int].spec_size(),
            count as int,
        ),
    decreases id, 1int,
{
    let n = planner.plan(id).size();
    let ghost plans = planner.spec_plans();
    let ghost want = batch_output(plans, id as int, block@, n as int, count as int);
    let mut out: Vec<T> = Vec::new();
    if count == 0 {
        proof {
            assert(out@ =~= want);
        }
        return out;
    }
    proof {
        lemma_measure_le(n as int);
        assert(n >= 1) by {
            let plan = plans[id as int];
            assert(plan.wf_in(plans, id as int));
        }
        assert(4 * plan_measure(n as int) * 1 <= usize::MAX) by (nonlinear_arith)
            requires
                4 * plan_measure(n as int) * count <= usize::MAX,
                count >= 1,
                plan_measure(n as int) >= 0,
        ;
    }
    let blen = block.len();
    let widths = batch_widths(count);
    let ghost ws = greedy_batches(count as nat);
    proof {
        lemma_greedy_batches(count as nat);
        assert(ws.skip(0) =~= ws);
    }
    let mut t: usize = 0;
    let mut j: usize = 0;
    while j < widths.len()
        invariant
            planner.wf(),
            plans == planner.spec_plans(),
            id < plans.len(),
            n as int == plans[id as int].spec_size(),
            n >= 1,
            runs_in_bounds(n as int, 1),
            widths@.map_values(|w: usize| w as int) == ws,
            forall|k: int| 0 <= k < ws.len() ==> #[trigger] ws[k] >= 1,
            j <= widths@.len(),
            t + total(ws.skip(j as int)) == count,
            out@.len() == t * n,
            forall|k: int|
                0 <= k < t * n ==> #[trigger] out@[k] == plan_output(
                    plans,
                    id as int,
                    block@.subrange((k / n as int) * n, (k / n as int) * n + n),
                )[k % n as int],
            block@.len() == n * count,
            blen == block@.len(),
        decreases widths@.len() - j,
    {
        let w = widths[j];
        proof {
            lemma_total_skip(ws, j as int);
            assert(ws[j as int] == w as int);
            lemma_total_nonneg(ws.skip(j + 1));
        }
        let mut lane: usize = 0;
        while lane < w
            invariant
                planner.wf(),
                plans == planner.spec_plans(),
                id < plans.len(),
                n as int == plans[id as int].spec_size(),
                n >= 1,
                runs_in_bounds(n as int, 1),
                lane <= w,
                t + w <= count,
                out@.len() == (t + lane) * n,
                forall|k: int|
                    0 <= k < (t + lane) * n ==> #[trigger] out@[k] == plan_output(
                        plans,
                        id as int,
                        block@.subrange((k / n as int) * n, (k / n as int) * n + n),
                    )[k % n as int],
                block@.len() == n * count,
                blen == block@.len(),
            decreases w - lane,
        {
            let u = t + lane;
            proof {
                assert(u * n + n <= n * count) by (nonlinear_arith)
                    requires u < count, n >= 1;
                assert((u + 1) * n == u * n + n) by (nonlinear_arith);
            }
            let x = copy_range(block, u * n, n);
            let y = run_one(planner, id, x.as_slice());
            let ghost before = out@;
            append(&mut out, &y);
            proof {
                assert forall|k: int| 0 <= k < (u + 1) * n implies #[trigger] out@[k] == plan_output(
                    plans,
                    id as int,
                    block@.subrange((k / n as int) * n, (k / n as int) * n + n),
                )[k % n as int] by {
                    if k >= u * n {
                        lemma_block_index(k - u * n, u as int, n as int);
                        assert(u * n + (k - u * n) == k);
                        assert(out@[k] == y@[k - u * n]);
                    } else {
                        assert(out@[k] == before[k]);
                    }
                }
            }
            lane = lane + 1;
        }
        t = t + w;
        j = j + 1;
    }
    proof {
        assert(ws.skip(widths@.len() as int) =~= Seq::<int>::empty());
        assert(t * n == n * count) by (nonlinear_arith)
            requires t == count;
        assert(out@ =~= want);
    }
    out
}

/// One transform of the plan `id`.
fn run_one<T: Scalar>(planner: &Planner, id: usize, x: &[T]) -> (r: Vec<T>)
    requires
        planner.wf(),
        id < planner.spec_plans().len(),
        x@.len() == planner.spec_plans()[id as int].spec_size(),
        runs_in_bounds(planner.spec_plans()[id as int].spec_size(), 1),
    ensures
        r@.len() == x@.len(),
        r@ == plan_output(planner.spec_plans(), id as int, x@),
    decreases id, 0int,
{
    let plan = planner.plan(id);
    let n = plan.size();
    let ghost plans = planner.spec_plans();
    proof {
        lemma_measure_le(n as int);
    }
    match plan {
        Plan::Kernel { .. } => {
            run_kernel(n, x)
        },
        Plan::MixedRadix { radix, dft_p, dft_q } => {
            let p = radix.radix();
            let q = radix.columns();
            let tw = radix.twiddles();
            proof {
                crate::factors::lemma_smallest_factor(n as int);
                lemma_radix_measure(n as int, p as int, q as int);
                assert(q >= 1) by (nonlinear_arith)
                    requires p * q == n, n >= 2, p >= 1;
                assert(q * p == n) by (nonlinear_arith)
                    requires p * q == n;
                assert((q - 1) * p + (p - 1) * 1 < n) by (nonlinear_arith)
                    requires p * q == n, p >= 1, q >= 1;
                assert((p - 1) * q + (q - 1) * 1 < n) by (nonlinear_arith)
                    requires p * q == n, p >= 1, q >= 1;
                assert(4 * plan_measure(q as int) * p <= usize::MAX) by (nonlinear_arith)
                    requires
                        plan_measure(q as int) * p <= plan_measure(n as int),
                        4 * plan_measure(n as int) * 1 <= usize::MAX,
                ;
                assert(4 * plan_measure(p as int) * q <= usize::MAX) by (nonlinear_arith)
                    requires
                        plan_measure(p as int) * q <= plan_measure(n as int),
                        4 * plan_measure(n as int) * 1 <= usize::MAX,
                ;
                assert(tw@.map_values(|v: usize| v as int).len() == tw@.len());
            }
            // column stage: element a * p + b is entry a of column b
            let cols = gather(x, q, p, 1, p);
            let ghost cols_spec = Seq::new(n as nat, |j: int| x@[strided_pos(j, q as int, p as int, 1)]);
            proof {
                assert(cols@ =~= cols_spec);
            }
            let mut y = match dft_q {
                Some(sub) => run(planner, *sub, cols.as_slice(), p),
                None => cols,
            };
            let ghost y0 = y@;
            // twiddle stage
            let mut a: usize = 0;
            while a < n
                invariant
                    y@.len() == n,
                    y0.len() == n,
                    tw@.len() == n,
                    tw@.map_values(|v: usize| v as int) == radix.spec_twiddle(),
                    radix.spec_twiddle() == crate::radix::twiddle_seq(n as nat, q as int),
                    a <= n,
                    n >= 1,
                    forall|k: int|
                        0 <= k < a ==> #[trigger] y@[k] == prod(
                            y0[k],
                            T::spec_root(twiddle_exponent(k, q as int), n as int),
                        ),
                    forall|k: int| a <= k < n ==> #[trigger] y@[k] == y0[k],
                decreases n - a,
            {
                proof {
                    assert(tw@.map_values(|v: usize| v as int)[a as int] == tw@[a as int] as int);
                }
                let f = T::root(tw[a], n);
                let v = y[a].times(&f);
                y.set(a, v);
                a = a + 1;
            }
            let ghost y2 = Seq::new(
                n as nat,
                |k: int| prod(y0[k], T::spec_root(twiddle_exponent(k, q as int), n as int)),
            );
            proof {
                assert(y@ =~= y2);
            }
            // row stage: entry c + q * d is element d of row c
            let rows = gather(y.as_slice(), p, q, 1, q);
            let ghost rows_spec = Seq::new(n as nat, |j: int| y2[strided_pos(j, p as int, q as int, 1)]);
            proof {
                assert(rows@ =~= rows_spec);
            }
            let z = match dft_p {
                Some(sub) => run(planner, *sub, rows.as_slice(), q),
                None => rows,
            };
            let mut xo: Vec<T> = Vec::new();
            let mut k: usize = 0;
            while k < n
                invariant
                    k <= n,
                    z@.len() == n,
                    p * q == n,
                    p >= 1,
                    q >= 1,
                    xo@.len() == k,
                    forall|i: int| 0 <= i < k ==> #[trigger] xo@[i] == z@[(i % q as int) * p + i / q as int],
                decreases n - k,
            {
                proof {
                    lemma_transpose_index(k as int, p as int, q as int);
                }
                xo.push(z[(k % q) * p + k / q]);
                k = k + 1;
            }
            proof {
                assert(xo@ =~= Seq::new(n as nat, |i: int| z@[(i % q as int) * p + i / q as int]));
            }
            xo
        },
        Plan::Rader { rader, dft_n1 } => {
            let sub = *dft_n1;
            let m = n - 1;
            let perm = rader.permutation();
            let inv = rader.inverse_permutation();
            let ghost permi = rader.spec_perm();
            let ghost invi = rader.spec_inv_perm();
            proof {
                lemma_prime_not_pow2(n as int);
                assert(perm@.len() == m && inv@.len() == m) by {
                    assert(as_ints(perm@).len() == perm@.len());
                    assert(as_ints(inv@).len() == inv@.len());
                }
                assert forall|k: int| 0 <= k < m implies permi[k] == #[trigger] perm@[k] as int by {
                    assert(as_ints(perm@)[k] == perm@[k] as int);
                }
                assert forall|k: int| 0 <= k < m implies invi[k] == #[trigger] inv@[k] as int by {
                    assert(as_ints(inv@)[k] == inv@[k] as int);
                }
                assert forall|k: int| 0 <= k < m implies #[trigger] perm@[k] < n by {
                    assert(permi[k] == perm@[k] as int);
                    vstd::arithmetic::power::lemma_pow_positive(rader.spec_g(), k as nat);
                    lemma_mod_pos_bound(vstd::arithmetic::power::pow(rader.spec_g(), k as nat), n as int);
                }
                assert forall|k: int| 0 <= k < m implies #[trigger] inv@[k] < n by {
                    assert(invi[k] == inv@[k] as int);
                    if rader.spec_g_inv() > 0 {
                        vstd::arithmetic::power::lemma_pow_positive(rader.spec_g_inv(), k as nat);
                    } else {
                        vstd::arithmetic::power::lemma_pow0(0);
                        if k > 0 {
                            vstd::arithmetic::power::lemma_pow_adds(0, 1, (k - 1) as nat);
                            vstd::arithmetic::power::lemma_pow1(0);
                        }
                    }
                    lemma_mod_pos_bound(vstd::arithmetic::power::pow(rader.spec_g_inv(), k as nat), n as int);
                }
                lemma_measure_le(m as int);
                assert(4 * plan_measure(m as int) * 1 <= usize::MAX) by (nonlinear_arith)
                    requires
                        plan_measure(m as int) <= 4 * m,
                        m < n,
                        plan_measure(n as int) == 4 * n,
                        4 * plan_measure(n as int) * 1 <= usize::MAX,
                ;
            }
            // the convolution kernel, in the frequency domain, scaled by 1 / (n - 1)
            let mut kern: Vec<T> = Vec::new();
            let mut k: usize = 0;
            while k < m
                invariant
                    k <= m,
                    kern@.len() == k,
                    inv@.len() == m,
                    forall|j: int| 0 <= j < m ==> invi[j] == inv@[j] as int,
                    forall|j: int| 0 <= j < k ==> #[trigger] kern@[j] == T::spec_root(invi[j], n as int),
                decreases m - k,
            {
                kern.push(T::root(inv[k], n));
                k = k + 1;
            }
            let ghost kern_spec = Seq::new(m as nat, |j: int| T::spec_root(invi[j], n as int));
            proof {
                assert(kern@ =~= kern_spec);
            }
            let om = run(planner, sub, kern.as_slice(), 1);
            let mut omega: Vec<T> = Vec::new();
            let mut k: usize = 0;
            while k < m
                invariant
                    k <= m,
                    omega@.len() == k,
                    om@.len() == m,
                    forall|j: int| 0 <= j < k ==> #[trigger] omega@[j] == T::spec_div_by(om@[j], m as int),
                decreases m - k,
            {
                omega.push(om[k].div_by(m));
                k = k + 1;
            }
            let ghost omega_spec = Seq::new(m as nat, |j: int| T::spec_div_by(om@[j], m as int));
            proof {
                assert(omega@ =~= omega_spec);
                assert(x@.len() == n);
            }
            let a = gather_indexed(x, perm.as_slice());
            let ghost a_spec = Seq::new(m as nat, |j: int| x@[permi[j]]);
            proof {
                assert(a@ =~= a_spec);
            }
            let fa = run(planner, sub, a.as_slice(), 1);
            let mut b: Vec<T> = Vec::new();
            let mut k: usize = 0;
            while k < m
                invariant
                    k <= m,
                    b@.len() == k,
                    fa@.len() == m,
                    omega@.len() == m,
                    x@.len() == n,
                    n >= 3,
                    forall|j: int|
                        0 <= j < k ==> #[trigger] b@[j] == T::spec_conj(
                            if j == 0 {
                                sum(prod(fa@[j], omega@[j]), x@[0])
                            } else {
                                prod(fa@[j], omega@[j])
                            },
                        ),
                decreases m - k,
            {
                let mut v = fa[k].times(&omega[k]);
                if k == 0 {
                    v = v.plus(&x[0]);
                }
                b.push(v.conj());
                k = k + 1;
            }
            let ghost b_spec = Seq::new(
                m as nat,
                |j: int|
                    T::spec_conj(
                        if j == 0 {
                            sum(prod(fa@[j], omega@[j]), x@[0])
                        } else {
                            prod(fa@[j], omega@[j])
                        },
                    ),
            );
            proof {
                assert(b@ =~= b_spec);
            }
            let c = run(planner, sub, b.as_slice(), 1);
            let mut xo: Vec<T> = zeros(n);
            xo.set(0, x[0].plus(&fa[0]));
            let ghost base = Seq::new(
                n as nat,
                |j: int|
                    if j == 0 {
                        sum(x@[0], fa@[0])
                    } else {
                        T::spec_zero()
                    },
            );
            proof {
                assert(xo@ =~= base);
                assert(rader_place(base, invi, c@, 0) == base);
            }
            let mut k: usize = 0;
            while k < m
                invariant
                    k <= m,
                    xo@.len() == n,
                    c@.len() == m,
                    inv@.len() == m,
                    forall|j: int| 0 <= j < m ==> #[trigger] inv@[j] < n,
                    forall|j: int| 0 <= j < m ==> invi[j] == inv@[j] as int,
                    xo@ == rader_place(base, invi, c@, k as int),
                decreases m - k,
            {
                xo.set(inv[k], c[k].conj());
                proof {
                    assert(inv@[k as int] < n);
                }
                k = k + 1;
            }
            xo
        },
        Plan::Bluestein { bluestein, dft_nb } => {
            let sub = *dft_nb;
            let nb = bluestein.conv_size();
            let chirp = bluestein.chirp();
            let ghost ch = bluestein.spec_chirp();
            proof {
                assert(nb % 2 == 0 || nb == 1);
                assert(nb < 4 * n) by (nonlinear_arith)
                    requires nb / 2 < 2 * n - 1 || nb == 1, nb % 2 == 0 || nb == 1, nb >= 1, n >= 1;
                assert(plan_measure(n as int) == 4 * n);
                lemma_measure_le(nb as int);
                assert(plan_measure(nb as int) == nb);
                assert(4 * plan_measure(nb as int) * 1 <= usize::MAX && 2 * n <= usize::MAX) by (nonlinear_arith)
                    requires
                        nb < 4 * n,
                        plan_measure(nb as int) == nb,
                        4 * (4 * n) * 1 <= usize::MAX,
                        n >= 1,
                ;
                assert(chirp@.len() == n) by {
                    assert(chirp@.map_values(|v: usize| v as int).len() == chirp@.len());
                }
                assert forall|k: int| 0 <= k < n implies ch[k] == chirp@[k] as int by {
                    assert(chirp@.map_values(|v: usize| v as int)[k] == chirp@[k] as int);
                }
            }
            let two_n = 2 * n;
            let mut w0: Vec<T> = Vec::new();
            let mut k: usize = 0;
            while k < n
                invariant
                    k <= n,
                    w0@.len() == k,
                    chirp@.len() == n,
                    two_n == 2 * n,
                    forall|j: int| 0 <= j < n ==> ch[j] == chirp@[j] as int,
                    forall|j: int| 0 <= j < k ==> #[trigger] w0@[j] == T::spec_root(ch[j], 2 * n),
                decreases n - k,
            {
                w0.push(T::root(chirp[k], two_n));
                k = k + 1;
            }
            let sources = bluestein.kernel_sources();
            let mut w1: Vec<T> = Vec::new();
            let mut j: usize = 0;
            while j < nb
                invariant
                    j <= nb,
                    w1@.len() == j,
                    w0@.len() == n,
                    sources@.len() == nb,
                    nb as int == bluestein.spec_nb(),
                    n as int == bluestein.spec_n(),
                    forall|i: int|
                        0 <= i < bluestein.spec_nb() ==> (match #[trigger] sources@[i] {
                            Some(s) => kernel_source(i, bluestein.spec_n(), bluestein.spec_nb()) == Some(
                                s as int,
                            ),
                            None => kernel_source(i, bluestein.spec_n(), bluestein.spec_nb()) is None,
                        }),
                    nb >= 1,
                    forall|i: int|
                        0 <= i < j ==> #[trigger] w1@[i] == (match kernel_source(i, n as int, nb as int) {
                            Some(src) => T::spec_div_by(w0@[src], nb as int),
                            None => T::spec_zero(),
                        }),
                decreases nb - j,
            {
                match sources[j] {
                    Some(s) => {
                        w1.push(w0[s].div_by(nb));
                    },
                    None => {
                        w1.push(T::zero());
                    },
                }
                j = j + 1;
            }
            let ghost w1_spec = Seq::new(
                nb as nat,
                |i: int|
                    match kernel_source(i, n as int, nb as int) {
                        Some(src) => T::spec_div_by(w0@[src], nb as int),
                        None => T::spec_zero(),
                    },
            );
            proof {
                assert(w1@ =~= w1_spec);
                assert(w0@ =~= Seq::new(n as nat, |k: int| T::spec_root(ch[k], 2 * n)));
            }
            let kernel = run(planner, sub, w1.as_slice(), 1);
            let mut padded: Vec<T> = Vec::new();
            let mut j: usize = 0;
            while j < nb
                invariant
                    j <= nb,
                    padded@.len() == j,
                    x@.len() == n,
                    w0@.len() == n,
                    forall|i: int|
                        0 <= i < j ==> #[trigger] padded@[i] == (if i < n {
                            prod(x@[i], w0@[i])
                        } else {
                            T::spec_zero()
                        }),
                decreases nb - j,
            {
                if j < n {
                    padded.push(x[j].times(&w0[j]));
                } else {
                    padded.push(T::zero());
                }
                j = j + 1;
            }
            proof {
                assert(padded@ =~= Seq::new(
                    nb as nat,
                    |i: int|
                        if i < n {
                            prod(x@[i], w0@[i])
                        } else {
                            T::spec_zero()
                        },
                ));
            }
            let f = run(planner, sub, padded.as_slice(), 1);
            let mut g: Vec<T> = Vec::new();
            let mut j: usize = 0;
            while j < nb
                invariant
                    j <= nb,
                    g@.len() == j,
                    f@.len() == nb,
                    kernel@.len() == nb,
                    forall|i: int| 0 <= i < j ==> #[trigger] g@[i] == prod(T::spec_conj(f@[i]), kernel@[i]),
                decreases nb - j,
            {
                g.push(f[j].conj().times(&kernel[j]));
                j = j + 1;
            }
            proof {
                assert(g@ =~= Seq::new(nb as nat, |i: int| prod(T::spec_conj(f@[i]), kernel@[i])));
            }
            let back = run(planner, sub, g.as_slice(), 1);
            let mut xo: Vec<T> = Vec::new();
            let mut k: usize = 0;
            while k < n
                invariant
                    k <= n,
                    n < nb,
                    xo@.len() == k,
                    back@.len() == nb,
                    w0@.len() == n,
                    forall|i: int| 0 <= i < k ==> #[trigger] xo@[i] == prod(T::spec_conj(back@[i]), w0@[i]),
                decreases n - k,
            {
                xo.push(back[k].conj().times(&w0[k]));
                k = k + 1;
            }
            proof {
                assert(xo@ =~= Seq::new(n as nat, |i: int| prod(T::spec_conj(back@[i]), w0@[i])));
            }
            xo
        },
    }
}

/// Entry `(k mod q) * p + k div q` of a block of `p * q` lies in it.
proof fn lemma_transpose_index(k: int, p: int, q: int)
    requires
        0 <= k < p * q,
        p >= 1,
        q >= 1,
    ensures
        0 <= (k % q) * p + k / q < p * q,
{
    lemma_fundamental_div_mod(k, q);
    lemma_mod_pos_bound(k, q);
    lemma_div_pos_is_pos(k, q);
    let r = k % q;
    let d = k / q;
    assert(0 <= r * p + d < p * q) by (nonlinear_arith)
        requires
            k == q * d + r,
            0 <= r < q,
            0 <= d,
            0 <= k < p * q,
            p >= 1,
            q >= 1,
    ;
}

/// Runs `count` transforms of the plan `id`: element `a` of transform `i` is
/// read at `a * istep + i * istep2` and written at `a * ostep + i * ostep2`
/// (with one transform, the batch strides are taken as zero). Each written
/// transform is what the plan computes from the transform read at the same
/// index, whatever the strides and the batch; positions of `output` outside
/// those written keep their values.
pub fn xform_many<T: Scalar>(
    planner: &Planner,
    id: usize,
    input: &[T],
    output: &mut Vec<T>,
    istep: usize,
    istep2: usize,
    ostep: usize,
    ostep2: usize,
    count: usize,
)
    requires
        planner.wf(),
        id < planner.spec_plans().len(),
        fits(
            input@.len() as int,
            planner.spec_plans()[id as int].spec_size(),
            istep as int,
            batch_stride(count as int, istep2 as int),
            count as int,
        ),
        fits(
            old(output)@.len() as int,
            planner.spec_plans()[id as int].spec_size(),
            ostep as int,
            batch_stride(count as int, ostep2 as int),
            count as int,
        ),
        distinct_positions(
            planner.spec_plans()[id as int].spec_size(),
            ostep as int,
            batch_stride(count as int, ostep2 as int),
            count as int,
        ),
        runs_in_bounds(planner.spec_plans()[id as int].spec_size(), count as int),
    ensures
        final(output)@.len() == old(output)@.len(),
        forall|a: int, i: int|
            0 <= a < planner.spec_plans()[id as int].spec_size() && 0 <= i < count ==> final(output)@[#[trigger] offset(
                a,
                i,
                ostep as int,
                batch_stride(count as int, ostep2 as int),
            )] == plan_output(
                planner.spec_plans(),
                id as int,
                Seq::new(
                    planner.spec_plans()[id as int].spec_size() as nat,
                    |b: int| input@[offset(b, i, istep as int, batch_stride(count as int, istep2 as int))],
                ),
            )[a],
        forall|k: int|
            0 <= k < old(output)@.len() && (forall|j: int|
                0 <= j < planner.spec_plans()[id as int].spec_size() * count ==> #[trigger] strided_pos(
                    j,
                    planner.spec_plans()[id as int].spec_size(),
                    ostep as int,
                    batch_stride(count as int, ostep2 as int),
                ) != k) ==> final(output)@[k] == old(output)@[k],
{
    let n = planner.plan(id).size();
    let is2 = effective_batch_stride(count, istep2);
    let os2 = effective_batch_stride(count, ostep2);
    let block = gather(input, n, istep, is2, count);
    let result = run(planner, id, block.as_slice(), count);
    scatter(output, result.as_slice(), n, ostep, os2, count);
    proof {
        let plans = planner.spec_plans();
        assert forall|a: int, i: int| 0 <= a < n && 0 <= i < count implies output@[#[trigger] offset(
            a,
            i,
            ostep as int,
            os2 as int,
        )] == plan_output(
            plans,
            id as int,
            Seq::new(n as nat, |b: int| input@[offset(b, i, istep as int, is2 as int)]),
        )[a] by {
            let j = i * n + a;
            assert(j < n * count) by (nonlinear_arith)
                requires a < n, i < count, j == i * n + a;
            lemma_strided_pos(a, i, n as int, ostep as int, os2 as int);
            assert(a + i * n == j);
            lemma_block_index(a, i, n as int);
            assert(i * n + n <= n * count) by (nonlinear_arith)
                requires i < count, n >= 0;
            let sl = block@.subrange(i * n, i * n + n);
            let want = Seq::new(n as nat, |b: int| input@[offset(b, i, istep as int, is2 as int)]);
            assert forall|b: int| 0 <= b < n implies #[trigger] sl[b] == want[b] by {
                    assert(i * n + n <= n * count) by (nonlinear_arith)
                        requires i < count, n >= 0;
                    assert(0 <= b + i * n < n * count);
                    assert(block@.subrange(i * n, i * n + n)[b] == block@[b + i * n]);
                    assert(block@[b + i * n] == input@[strided_pos(
                        b + i * n,
                        n as int,
                        istep as int,
                        is2 as int,
                    )]);
                    lemma_strided_pos(b, i, n as int, istep as int, is2 as int);
            }
            assert(sl =~= want);
        }
    }
}

/// One transform of the plan `id`, from `input[0..n]` to `output[0..n]`.
pub fn xform<T: Scalar>(planner: &Planner, id: usize, input: &[T], output: &mut Vec<T>)
    requires
        planner.wf(),
        id < planner.spec_plans().len(),
        input@.len() >= planner.spec_plans()[id as int].spec_size(),
        old(output)@.len() >= planner.spec_plans()[id as int].spec_size(),
        runs_in_bounds(planner.spec_plans()[id as int].spec_size(), 1),
    ensures
        final(output)@.len() == old(output)@.len(),
        forall|a: int|
            0 <= a < planner.spec_plans()[id as int].spec_size() ==> #[trigger] final(output)@[a] == plan_output(
                planner.spec_plans(),
                id as int,
                input@.subrange(0, planner.spec_plans()[id as int].spec_size()),
            )[a],
        forall|k: int|
            planner.spec_plans()[id as int].spec_size() <= k < old(output)@.len() ==> final(output)@[k]
                == old(output)@[k],
{
    let n = planner.plan(id).size();
    proof {
        lemma_unit_stride(n as int);
    }
    xform_many(planner, id, input, output, 1, 0, 1, 0, 1);
    proof {
        let plans = planner.spec_plans();
        assert(Seq::new(n as nat, |b: int| input@[offset(b, 0, 1, 0)]) =~= input@.subrange(0, n as int));
        assert forall|a: int| 0 <= a < n implies #[trigger] output@[a] == plan_output(
            plans,
            id as int,
            input@.subrange(0, n as int),
        )[a] by {
            assert(offset(a, 0, 1, 0) == a);
        }
        assert forall|k: int| n <= k < old(output)@.len() implies output@[k] == old(output)@[k] by {
            assert forall|j: int| 0 <= j < n * 1 implies #[trigger] strided_pos(
                j,
                n as int,
                1,
                batch_stride(1, 0),
            ) != k by {}
        }
    }
}

/// One transform of the plan `id` over `buffer[0..n]`, in place, through a
/// copy of the buffer: the same values as `xform` from that copy.
pub fn xform_inplace<T: Scalar>(planner: &Planner, id: usize, buffer: &mut Vec<T>)
    requires
        planner.wf(),
        id < planner.spec_plans().len(),
        old(buffer)@.len() >= planner.spec_plans()[id as int].spec_size(),
        runs_in_bounds(planner.spec_plans()[id as int].spec_size(), 1),
    ensures
        final(buffer)@.len() == old(buffer)@.len(),
        forall|a: int|
            0 <= a < planner.spec_plans()[id as int].spec_size() ==> #[trigger] final(buffer)@[a] == plan_output(
                planner.spec_plans(),
                id as int,
                old(buffer)@.subrange(0, planner.spec_plans()[id as int].spec_size()),
            )[a],
        forall|k: int|
            planner.spec_plans()[id as int].spec_size() <= k < old(buffer)@.len() ==> final(buffer)@[k]
                == old(buffer)@[k],
{
    let len = buffer.len();
    let temp = copy_range(buffer.as_slice(), 0, len);
    proof {
        assert(temp@ =~= old(buffer)@);
    }
    xform(planner, id, temp.as_slice(), buffer);
}

/// The output of a batch, transform by transform: transform `i` of a batch
/// of `count` is what the plan computes from transform `i` of the input
/// alone, whatever the batch it came in.
pub proof fn lemma_batch_output_slice<T: Scalar>(
    plans: Seq<Plan>,
    id: int,
    block: Seq<T>,
    n: int,
    count: int,
    i: int,
    a: int,
)
    requires
        n >= 1,
        0 <= i < count,
        0 <= a < n,
        block.len() == n * count,
    ensures
        batch_output(plans, id, block, n, count)[i * n + a] == plan_output(
            plans,
            id,
            block.subrange(i * n, i * n + n),
        )[a],
{
    lemma_block_index(a, i, n);
    assert(i * n + a < n * count) by (nonlinear_arith)
        requires 0 <= a < n, 0 <= i < count;
}

/// A plan of size 1 is the identity.
pub proof fn lemma_size_one_identity<T: Scalar>(plans: Seq<Plan>, id: int, x: Seq<T>)
    requires
        0 <= id < plans.len(),
        plans[id].wf_in(plans, id),
        plans[id].spec_size() == 1,
        x.len() == 1,
    ensures
        plan_output(plans, id, x) == x,
{
    match plans[id] {
        Plan::Kernel { n } => {
            assert(seq![x[0]] =~= x);
        },
        Plan::MixedRadix { radix, .. } => {
            assert(radix.wf());
        },
        Plan::Rader { rader, .. } => {
            assert(rader.wf());
        },
        Plan::Bluestein { bluestein, .. } => {
            assert(!is_pow2(1));
        },
    }
}

/// With unit stride, one transform of length `n` writes exactly `[0, n)`.
proof fn lemma_unit_stride(n: int)
    requires
        n >= 0,
    ensures
        distinct_positions(n, 1, batch_stride(1, 0), 1),
        forall|j: int| 0 <= j < n * 1 ==> #[trigger] strided_pos(j, n, 1, batch_stride(1, 0)) == j,
{
    assert forall|j: int| 0 <= j < n * 1 implies #[trigger] strided_pos(j, n, 1, batch_stride(1, 0)) == j by {
        lemma_fundamental_div_mod(j, n);
        lemma_small_mod(j as nat, n as nat);
        lemma_basic_div(j, n);
    }
}

proof fn lemma_total_nonneg(s: Seq<int>)
    requires
        forall|k: int| 0 <= k < s.len() ==> #[trigger] s[k] >= 0,
    ensures
        total(s) >= 0,
    decreases s.len(),
{
    if s.len() > 0 {
        lemma_total_nonneg(s.drop_first());
    }
}

} // verus!
