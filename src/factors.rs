use vstd::arithmetic::div_mod::*;
use vstd::arithmetic::mul::*;
use vstd::prelude::*;

verus! {

/// `n` is prime: at least two, and no integer in `[2, n)` divides it.
pub open spec fn is_prime(n: int) -> bool {
    n >= 2 && forall|d: int| 2 <= d < n ==> #[trigger] (n % d) != 0
}

/// The least divisor of `n` that is at least `d` (or `n` itself).
pub open spec fn least_divisor_from(n: int, d: int) -> int
    decreases n - d,
{
    if d >= n {
        n
    } else if n % d == 0 {
        d
    } else {
        least_divisor_from(n, d + 1)
    }
}

/// The smallest prime factor of `n`; `n` itself for `n` below 2.
pub open spec fn smallest_factor(n: int) -> int {
    if n < 2 {
        n
    } else {
        least_divisor_from(n, 2)
    }
}

/// The prime factors of `n` in nondecreasing order, with multiplicity
/// (empty for `n` below 2).
pub open spec fn prime_factors(n: int) -> Seq<int>
    decreases n,
    via prime_factors_decreases
{
    if n < 2 {
        seq![]
    } else {
        let f = smallest_factor(n);
        if f == n {
            seq![n]
        } else {
            seq![f] + prime_factors(n / f)
        }
    }
}

#[via_fn]
proof fn prime_factors_decreases(n: int) {
    if n >= 2 {
        lemma_smallest_factor(n);
        let f = smallest_factor(n);
        if f != n {
            lemma_div_decreases(n, f);
        }
    }
}

/// Product of a sequence of integers.
pub open spec fn product(s: Seq<int>) -> int
    decreases s.len(),
{
    if s.len() == 0 {
        1
    } else {
        s[0] * product(s.drop_first())
    }
}

/// Every element is prime.
pub open spec fn all_prime(s: Seq<int>) -> bool {
    forall|i: int| 0 <= i < s.len() ==> is_prime(#[trigger] s[i])
}

/// Elements never decrease from left to right.
pub open spec fn nondecreasing(s: Seq<int>) -> bool {
    forall|i: int, j: int| 0 <= i <= j < s.len() ==> s[i] <= s[j]
}

/// Divisibility is transitive.
pub proof fn lemma_divides_trans(k: int, s: int, n: int)
    requires
        k > 0,
        s > 0,
        s % k == 0,
        n % s == 0,
    ensures
        n % k == 0,
{
    lemma_fundamental_div_mod(n, s);
    lemma_fundamental_div_mod(s, k);
    let a = n / s;
    let b = s / k;
    assert(n == k * (b * a)) by (nonlinear_arith)
        requires
            n == s * a + 0,
            s == k * b + 0,
    ;
    lemma_mod_multiples_basic(b * a, k);
    lemma_mul_is_commutative(k, b * a);
}

proof fn lemma_least_divisor_from(n: int, d: int)
    requires
        2 <= d <= n,
        forall|k: int| 2 <= k < d ==> #[trigger] (n % k) != 0,
    ensures
        d <= least_divisor_from(n, d) <= n,
        n % least_divisor_from(n, d) == 0,
        forall|k: int| 2 <= k < least_divisor_from(n, d) ==> #[trigger] (n % k) != 0,
    decreases n - d,
{
    if d >= n {
        lemma_mod_self_0(n);
    } else if n % d != 0 {
        lemma_least_divisor_from(n, d + 1);
    }
}

/// What the smallest factor of `n >= 2` is: a prime divisor of `n`, below
/// which `n` has no divisor.
pub proof fn lemma_smallest_factor(n: int)
    requires
        n >= 2,
    ensures
        2 <= smallest_factor(n) <= n,
        n % smallest_factor(n) == 0,
        forall|k: int| 2 <= k < smallest_factor(n) ==> #[trigger] (n % k) != 0,
        is_prime(smallest_factor(n)),
        is_prime(n) <==> smallest_factor(n) == n,
{
    lemma_least_divisor_from(n, 2);
    let f = smallest_factor(n);
    assert forall|k: int| 2 <= k < f implies #[trigger] (f % k) != 0 by {
        if f % k == 0 {
            lemma_divides_trans(k, f, n);
        }
    }
}

/// A divisor of `n` with no smaller divisor is its smallest factor.
pub proof fn lemma_smallest_factor_unique(n: int, f: int)
    requires
        2 <= f <= n,
        n % f == 0,
        forall|k: int| 2 <= k < f ==> #[trigger] (n % k) != 0,
    ensures
        smallest_factor(n) == f,
{
    lemma_smallest_factor(n);
}

/// If no prime below `c` divides `n`, no integer in `[2, c)` does.
pub proof fn lemma_no_prime_divisor(n: int, c: int)
    requires
        n >= 1,
        forall|q: int| 2 <= q < c && is_prime(q) ==> #[trigger] (n % q) != 0,
    ensures
        forall|k: int| 2 <= k < c ==> #[trigger] (n % k) != 0,
{
    assert forall|k: int| 2 <= k < c implies #[trigger] (n % k) != 0 by {
        if n % k == 0 {
            lemma_smallest_factor(k);
            let q = smallest_factor(k);
            lemma_divides_trans(q, k, n);
            assert(n % q != 0);
        }
    }
}

/// `n` with no divisor in `[2, c)` and `c * c > n` is prime.
pub proof fn lemma_prime_by_bound(n: int, c: int)
    requires
        n >= 2,
        c >= 2,
        c * c > n,
        forall|k: int| 2 <= k < c ==> #[trigger] (n % k) != 0,
    ensures
        is_prime(n),
{
    assert forall|k: int| 2 <= k < n implies #[trigger] (n % k) != 0 by {
        if n % k == 0 && k >= c {
            lemma_fundamental_div_mod(n, k);
            let j = n / k;
            assert(2 <= j < c) by (nonlinear_arith)
                requires
                    n == k * j + 0,
                    k >= c,
                    c * c > n,
                    k < n,
                    c >= 2,
            ;
            lemma_mod_multiples_basic(k, j);
            assert(n == k * j);
            lemma_mul_is_commutative(k, j);
            assert(n % j == 0);
        }
    }
}

/// `prime_factors(n)` is a nondecreasing list of primes, whose product is
/// `n`, led by the smallest factor of `n`.
pub proof fn lemma_prime_factors(n: int)
    requires
        n >= 1,
    ensures
        all_prime(prime_factors(n)),
        product(prime_factors(n)) == n,
        nondecreasing(prime_factors(n)),
        n >= 2 ==> prime_factors(n).len() >= 1 && prime_factors(n)[0] == smallest_factor(n),
        forall|i: int|
            0 <= i < prime_factors(n).len() ==> smallest_factor(n) <= #[trigger] prime_factors(n)[i],
    decreases n,
{
    if n >= 2 {
        lemma_smallest_factor(n);
        let f = smallest_factor(n);
        let s = prime_factors(n);
        if f == n {
            assert(product(s.drop_first()) == 1) by {
                assert(s.drop_first() =~= seq![]);
            }
        } else {
            let m = n / f;
            lemma_fundamental_div_mod(n, f);
            lemma_div_decreases(n, f);
            assert(m >= 1) by (nonlinear_arith)
                requires n == f * m + 0, n >= 2, f >= 2;
            lemma_prime_factors(m);
            let t = prime_factors(m);
            assert(s.drop_first() =~= t);
            if m >= 2 {
                lemma_smallest_factor(m);
                let g = smallest_factor(m);
                // every divisor of m divides n, so g is no smaller than f
                if g < f {
                    lemma_mod_multiples_basic(f, m);
                    assert(n == f * m);
                    lemma_divides_trans(g, m, n);
                }
            }
            assert forall|i: int, j: int| 0 <= i <= j < s.len() implies s[i] <= s[j] by {
                if i > 0 {
                    assert(s[i] == t[i - 1]);
                    assert(s[j] == t[j - 1]);
                } else {
                    assert(s[j] >= f);
                }
            }
        }
    }
}

} // verus!
