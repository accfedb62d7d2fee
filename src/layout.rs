use vstd::prelude::*;

verus! {

/// Position of element `a` of transform `i` in a buffer with element stride
/// `step` and transform stride `step2`.
pub open spec fn offset(a: int, i: int, step: int, step2: int) -> int {
    a * step + i * step2
}

/// Every position of `count` transforms of length `n` lies below `len`.
pub open spec fn fits(len: int, n: int, step: int, step2: int, count: int) -> bool {
    n >= 1 && count >= 1 ==> (n - 1) * step + (count - 1) * step2 < len
}

/// Position of entry `j` of a contiguous block of transforms of length `n`.
pub open spec fn strided_pos(j: int, n: int, step: int, step2: int) -> int {
    offset(j % n, j / n, step, step2)
}

/// No two elements of `count` transforms of length `n` share a position.
pub open spec fn distinct_positions(n: int, step: int, step2: int, count: int) -> bool {
    forall|j1: int, j2: int|
        0 <= j1 < n * count && 0 <= j2 < n * count && j1 != j2 ==> #[trigger] strided_pos(j1, n, step, step2)
            != #[trigger] strided_pos(j2, n, step, step2)
}

proof fn lemma_offset_bound(a: int, i: int, n: int, step: int, step2: int, count: int)
    requires
        0 <= a < n,
        0 <= i < count,
        step >= 0,
        step2 >= 0,
    ensures
        0 <= offset(a, i, step, step2) <= (n - 1) * step + (count - 1) * step2,
        0 <= a * step,
        0 <= i * step2,
{
    assert(0 <= a * step <= (n - 1) * step) by (nonlinear_arith)
        requires 0 <= a < n, step >= 0;
    assert(0 <= i * step2 <= (count - 1) * step2) by (nonlinear_arith)
        requires 0 <= i < count, step2 >= 0;
}

/// Entry `a + i * n` of a contiguous block is element `a` of transform `i`:
/// its strided position is `a * step + i * step2`.
pub proof fn lemma_strided_pos(a: int, i: int, n: int, step: int, step2: int)
    requires
        0 <= a < n,
        0 <= i,
    ensures
        strided_pos(a + i * n, n, step, step2) == offset(a, i, step, step2),
{
    lemma_block_index(a, i, n);
    assert(a + i * n == i * n + a);
}

pub(crate) proof fn lemma_block_index(a: int, i: int, n: int)
    requires
        0 <= a < n,
        0 <= i,
    ensures
        (i * n + a) % n == a,
        (i * n + a) / n == i,
{
    assert(i * n + a == n * i + a) by (nonlinear_arith);
    vstd::arithmetic::div_mod::lemma_mod_multiples_vanish(i, a, n);
    vstd::arithmetic::div_mod::lemma_small_mod(a as nat, n as nat);
    vstd::arithmetic::div_mod::lemma_div_multiples_vanish_fancy(i, a, n);
}

/// The batch stride the driver uses: with one transform it is zero, so
/// that a meaningless stride is never read.
pub open spec fn batch_stride(count: int, step2: int) -> int {
    if count == 1 {
        0
    } else {
        step2
    }
}

/// The widths in which the driver takes `rem` transforms: as many batches of
/// eight as fit, then of four, then single ones.
pub open spec fn greedy_batches(rem: nat) -> Seq<int>
    decreases rem,
{
    if rem >= 8 {
        seq![8int] + greedy_batches((rem - 8) as nat)
    } else if rem >= 4 {
        seq![4int] + greedy_batches((rem - 4) as nat)
    } else if rem >= 1 {
        seq![1int] + greedy_batches((rem - 1) as nat)
    } else {
        seq![]
    }
}

/// Sum of a sequence.
pub open spec fn total(s: Seq<int>) -> int
    decreases s.len(),
{
    if s.len() == 0 {
        0
    } else {
        s[0] + total(s.drop_first())
    }
}

/// The batches of the driver cover the transforms exactly, each batch being
/// of width eight, four or one.
pub proof fn lemma_greedy_batches(rem: nat)
    ensures
        total(greedy_batches(rem)) == rem,
        forall|j: int|
            0 <= j < greedy_batches(rem).len() ==> {
                let w = #[trigger] greedy_batches(rem)[j];
                w == 8 || w == 4 || w == 1
            },
    decreases rem,
{
    let s = greedy_batches(rem);
    if rem >= 1 {
        let w: int = if rem >= 8 {
            8
        } else if rem >= 4 {
            4
        } else {
            1
        };
        let t = greedy_batches((rem - w) as nat);
        lemma_greedy_batches((rem - w) as nat);
        assert(s == seq![w] + t);
        assert(s.drop_first() =~= t);
        assert forall|j: int| 0 <= j < s.len() implies {
            let x = #[trigger] s[j];
            x == 8 || x == 4 || x == 1
        } by {
            if j > 0 {
                assert(s[j] == t[j - 1]);
            }
        }
    }
}

/// Widths of the batches in which `count` transforms are run.
pub fn batch_widths(count: usize) -> (r: Vec<usize>)
    ensures
        r@.map_values(|w: usize| w as int) == greedy_batches(count as nat),
{
    let mut r: Vec<usize> = Vec::new();
    let mut done: usize = 0;
    while count - done >= 8
        invariant
            done <= count,
            r@.map_values(|w: usize| w as int) + greedy_batches((count - done) as nat)
                == greedy_batches(count as nat),
        decreases count - done,
    {
        let ghost before = r@;
        r.push(8);
        proof {
            assert(greedy_batches((count - done) as nat) == seq![8int] + greedy_batches(
                (count - done - 8) as nat,
            ));
            assert(r@.map_values(|w: usize| w as int) =~= before.map_values(|w: usize| w as int)
                + seq![8int]);
            assert(r@.map_values(|w: usize| w as int) + greedy_batches((count - done - 8) as nat)
                =~= before.map_values(|w: usize| w as int) + greedy_batches((count - done) as nat));
        }
        done = done + 8;
    }
    while count - done >= 4
        invariant
            done <= count,
            r@.map_values(|w: usize| w as int) + greedy_batches((count - done) as nat)
                == greedy_batches(count as nat),
            count - done < 8,
        decreases count - done,
    {
        let ghost before = r@;
        r.push(4);
        proof {
            assert(greedy_batches((count - done) as nat) == seq![4int] + greedy_batches(
                (count - done - 4) as nat,
            ));
            assert(r@.map_values(|w: usize| w as int) =~= before.map_values(|w: usize| w as int)
                + seq![4int]);
            assert(r@.map_values(|w: usize| w as int) + greedy_batches((count - done - 4) as nat)
                =~= before.map_values(|w: usize| w as int) + greedy_batches((count - done) as nat));
        }
        done = done + 4;
    }
    while done < count
        invariant
            done <= count,
            r@.map_values(|w: usize| w as int) + greedy_batches((count - done) as nat)
                == greedy_batches(count as nat),
            count - done < 4,
        decreases count - done,
    {
        let ghost before = r@;
        r.push(1);
        proof {
            assert(greedy_batches((count - done) as nat) == seq![1int] + greedy_batches(
                (count - done - 1) as nat,
            ));
            assert(r@.map_values(|w: usize| w as int) =~= before.map_values(|w: usize| w as int)
                + seq![1int]);
            assert(r@.map_values(|w: usize| w as int) + greedy_batches((count - done - 1) as nat)
                =~= before.map_values(|w: usize| w as int) + greedy_batches((count - done) as nat));
        }
        done = done + 1;
    }
    proof {
        assert(greedy_batches(0) =~= seq![]);
        assert(r@.map_values(|w: usize| w as int) + greedy_batches(0) =~= r@.map_values(
            |w: usize| w as int,
        ));
    }
    r
}

/// Copies `count` strided transforms of length `n` into one contiguous
/// block: entry `a + i * n` is element `a` of transform `i`.
pub fn gather<T: Copy>(src: &[T], n: usize, step: usize, step2: usize, count: usize) -> (r: Vec<T>)
    requires
        fits(src@.len() as int, n as int, step as int, step2 as int, count as int),
    ensures
        r@.len() == n * count,
        forall|j: int|
            0 <= j < n * count ==> #[trigger] r@[j] == src@[strided_pos(j, n as int, step as int, step2 as int)],
{
    let mut r: Vec<T> = Vec::new();
    let len = src.len();
    let mut i: usize = 0;
    while i < count
        invariant
            len == src@.len(),
            fits(src@.len() as int, n as int, step as int, step2 as int, count as int),
            i <= count,
            r@.len() == i * n,
            forall|j: int|
                0 <= j < i * n ==> #[trigger] r@[j] == src@[strided_pos(j, n as int, step as int, step2 as int)],
        decreases count - i,
    {
        let mut a: usize = 0;
        while a < n
            invariant
                len == src@.len(),
                fits(src@.len() as int, n as int, step as int, step2 as int, count as int),
                i < count,
                a <= n,
                r@.len() == i * n + a,
                forall|j: int|
                    0 <= j < i * n + a ==> #[trigger] r@[j] == src@[strided_pos(j, n as int, step as int, step2 as int)],
            decreases n - a,
        {
            proof {
                lemma_offset_bound(a as int, i as int, n as int, step as int, step2 as int, count as int);
                lemma_block_index(a as int, i as int, n as int);
            }
            let v = src[a * step + i * step2];
            r.push(v);
            a = a + 1;
        }
        proof {
            assert((i + 1) * n == i * n + n) by (nonlinear_arith);
        }
        i = i + 1;
    }
    proof {
        assert(count * n == n * count) by (nonlinear_arith);
    }
    r
}

/// Writes a contiguous block of `count` transforms of length `n` to their
/// strided positions in `dst`; every other position keeps its value.
pub fn scatter<T: Copy>(dst: &mut Vec<T>, data: &[T], n: usize, step: usize, step2: usize, count: usize)
    requires
        fits(old(dst)@.len() as int, n as int, step as int, step2 as int, count as int),
        distinct_positions(n as int, step as int, step2 as int, count as int),
        data@.len() >= n * count,
    ensures
        final(dst)@.len() == old(dst)@.len(),
        forall|j: int|
            0 <= j < n * count ==> #[trigger] final(dst)@[strided_pos(j, n as int, step as int, step2 as int)]
                == data@[j],
        forall|k: int|
            0 <= k < old(dst)@.len() && (forall|j: int|
                0 <= j < n * count ==> #[trigger] strided_pos(j, n as int, step as int, step2 as int) != k)
                ==> final(dst)@[k] == old(dst)@[k],
{
    let len = dst.len();
    let dlen = data.len();
    let mut i: usize = 0;
    while i < count
        invariant
            dlen == data@.len(),
            len == dst@.len(),
            fits(dst@.len() as int, n as int, step as int, step2 as int, count as int),
            distinct_positions(n as int, step as int, step2 as int, count as int),
            data@.len() >= n * count,
            i <= count,
            dst@.len() == old(dst)@.len(),
            forall|j: int|
                0 <= j < i * n ==> #[trigger] dst@[strided_pos(j, n as int, step as int, step2 as int)] == data@[j],
            forall|k: int|
                0 <= k < dst@.len() && (forall|j: int|
                    0 <= j < i * n ==> #[trigger] strided_pos(j, n as int, step as int, step2 as int) != k)
                    ==> dst@[k] == old(dst)@[k],
        decreases count - i,
    {
        let mut a: usize = 0;
        while a < n
            invariant
                dlen == data@.len(),
                len == dst@.len(),
                fits(dst@.len() as int, n as int, step as int, step2 as int, count as int),
                distinct_positions(n as int, step as int, step2 as int, count as int),
                data@.len() >= n * count,
                i < count,
                a <= n,
                dst@.len() == old(dst)@.len(),
                forall|j: int|
                    0 <= j < i * n + a ==> #[trigger] dst@[strided_pos(j, n as int, step as int, step2 as int)]
                        == data@[j],
                forall|k: int|
                    0 <= k < dst@.len() && (forall|j: int|
                        0 <= j < i * n + a ==> #[trigger] strided_pos(j, n as int, step as int, step2 as int) != k)
                        ==> dst@[k] == old(dst)@[k],
            decreases n - a,
        {
            proof {
                lemma_offset_bound(a as int, i as int, n as int, step as int, step2 as int, count as int);
                lemma_block_index(a as int, i as int, n as int);
                assert(i * n + a < n * count) by (nonlinear_arith)
                    requires a < n, i < count;
            }
            let pos = a * step + i * step2;
            let jj = i * n + a;
            let ghost before = dst@;
            dst.set(pos, data[jj]);
            proof {
                let cur = (i * n + a) as int;
                assert(dst@[pos as int] == data@[cur]);
                assert(strided_pos(cur, n as int, step as int, step2 as int) == pos);
                assert forall|k: int|
                    0 <= k < dst@.len() && (forall|j: int|
                        0 <= j < cur + 1 ==> #[trigger] strided_pos(j, n as int, step as int, step2 as int) != k)
                        implies dst@[k] == old(dst)@[k] by {
                    assert(strided_pos(cur, n as int, step as int, step2 as int) != k);
                    assert(before[k] == old(dst)@[k]);
                }
                assert forall|j: int| 0 <= j < cur + 1 implies #[trigger] dst@[strided_pos(
                    j,
                    n as int,
                    step as int,
                    step2 as int,
                )] == data@[j] by {
                    if j < cur {
                        vstd::arithmetic::div_mod::lemma_mod_pos_bound(j, n as int);
                        vstd::arithmetic::div_mod::lemma_div_pos_is_pos(j, n as int);
                        assert(j / (n as int) < count) by {
                            vstd::arithmetic::div_mod::lemma_fundamental_div_mod(j, n as int);
                            let d = j / (n as int);
                            assert(d < count) by (nonlinear_arith)
                                requires
                                    j == n * d + j % (n as int),
                                    j % (n as int) >= 0,
                                    j < n * count,
                                    n >= 1,
                            ;
                        }
                        vstd::arithmetic::div_mod::lemma_fundamental_div_mod(j, n as int);
                        let d = j / (n as int);
                        let rm = j % (n as int);
                        assert(rm != a || d != i) by (nonlinear_arith)
                            requires
                                j == n * d + rm,
                                j < cur,
                                cur == i * n + a,
                        ;
                        assert(j < n * count);
                        assert(strided_pos(j, n as int, step as int, step2 as int) != strided_pos(
                            cur,
                            n as int,
                            step as int,
                            step2 as int,
                        ));
                        lemma_offset_bound(rm, d, n as int, step as int, step2 as int, count as int);
                        assert(before[strided_pos(j, n as int, step as int, step2 as int)] == data@[j]);
                    }
                }
            }
            a = a + 1;
        }
        proof {
            assert((i + 1) * n == i * n + n) by (nonlinear_arith);
        }
        i = i + 1;
    }
    proof {
        assert(count * n == n * count) by (nonlinear_arith);
    }
}

/// Entry `k` of the result is `src[idx[k]]`.
pub fn gather_indexed<T: Copy>(src: &[T], idx: &[usize]) -> (r: Vec<T>)
    requires
        forall|k: int| 0 <= k < idx@.len() ==> #[trigger] idx@[k] < src@.len(),
    ensures
        r@.len() == idx@.len(),
        forall|k: int| 0 <= k < idx@.len() ==> #[trigger] r@[k] == src@[idx@[k] as int],
{
    let mut r: Vec<T> = Vec::new();
    let mut k: usize = 0;
    while k < idx.len()
        invariant
            forall|m: int| 0 <= m < idx@.len() ==> #[trigger] idx@[m] < src@.len(),
            k <= idx@.len(),
            r@.len() == k,
            forall|m: int| 0 <= m < k ==> #[trigger] r@[m] == src@[idx@[m] as int],
        decreases idx@.len() - k,
    {
        r.push(src[idx[k]]);
        k = k + 1;
    }
    r
}

/// The batch stride used for `count` transforms.
pub fn effective_batch_stride(count: usize, step2: usize) -> (r: usize)
    ensures
        r as int == batch_stride(count as int, step2 as int),
{
    if count == 1 {
        0
    } else {
        step2
    }
}

} // verus!
