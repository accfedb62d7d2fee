use crate::factors::{lemma_prime_factors, lemma_smallest_factor, smallest_factor};
use crate::prime_cache::{get_factors_all, PrimeLore};
use vstd::arithmetic::div_mod::*;
use vstd::prelude::*;

verus! {

/// Exponent of the twiddle factor at index `a` of a split with `q` columns:
/// `(a mod q) * (a div q)`, for the factor `exp(-2 pi i e / n)`.
pub open spec fn twiddle_exponent(a: int, q: int) -> int {
    (a % q) * (a / q)
}

/// Twiddle exponents of a split of `n` into `q` columns.
pub open spec fn twiddle_seq(n: nat, q: int) -> Seq<int> {
    Seq::new(n, |a: int| twiddle_exponent(a, q))
}

/// Cooley-Tukey split of a size `n = p * q`, with `p` the smallest prime
/// factor of `n`, and the twiddle exponents of each of the `n` positions.
pub struct DFTRadix {
    n: usize,
    p: usize,
    q: usize,
    twiddle: Vec<usize>,
}

impl DFTRadix {
    pub closed spec fn spec_n(&self) -> int {
        self.n as int
    }

    pub closed spec fn spec_p(&self) -> int {
        self.p as int
    }

    pub closed spec fn spec_q(&self) -> int {
        self.q as int
    }

    pub closed spec fn spec_twiddle(&self) -> Seq<int> {
        self.twiddle@.map_values(|x: usize| x as int)
    }

    /// `n = p * q`, `p` is the smallest prime factor, and the table holds the
    /// twiddle exponent of each position.
    pub open spec fn wf(&self) -> bool {
        &&& self.spec_n() >= 2
        &&& self.spec_p() == smallest_factor(self.spec_n())
        &&& self.spec_p() * self.spec_q() == self.spec_n()
        &&& self.spec_twiddle() == twiddle_seq(self.spec_n() as nat, self.spec_q())
    }

    /// The split of `n` and its twiddle exponents.
    pub fn new(lore: &mut PrimeLore, n: usize) -> (r: DFTRadix)
        requires
            old(lore).wf(),
            n >= 2,
        ensures
            final(lore).wf(),
            forall|k: usize| #[trigger] old(lore).known().contains_key(k) ==> final(lore).known().contains_key(k)
                && final(lore).known()[k] == old(lore).known()[k],
            r.wf(),
            r.spec_n() == n,
    {
        let (factors, count) = get_factors_all(lore, n);
        proof {
            lemma_prime_factors(n as int);
            lemma_smallest_factor(n as int);
            assert(factors@[0] as int == crate::prime_cache::as_ints(factors@)[0]);
        }
        let p = if count > 0 { factors[0] } else { n };
        let q = n / p;
        proof {
            lemma_fundamental_div_mod(n as int, p as int);
        }
        let mut twiddle: Vec<usize> = Vec::new();
        let mut a: usize = 0;
        while a < n
            invariant
                2 <= p <= n,
                p * q == n,
                a <= n,
                twiddle@.len() == a,
                forall|j: int| 0 <= j < a ==> #[trigger] twiddle@[j] as int == twiddle_exponent(j, q as int),
            decreases n - a,
        {
            proof {
                lemma_twiddle_bound(a as int, p as int, q as int);
            }
            twiddle.push((a % q) * (a / q));
            a = a + 1;
        }
        let r = DFTRadix { n, p, q, twiddle };
        proof {
            assert(r.spec_twiddle() =~= twiddle_seq(n as nat, q as int));
        }
        r
    }

    pub fn size(&self) -> (r: usize)
        ensures
            r as int == self.spec_n(),
    {
        self.n
    }

    /// The radix `p`: the length of the row transforms.
    pub fn radix(&self) -> (r: usize)
        ensures
            r as int == self.spec_p(),
    {
        self.p
    }

    /// `q = n / p`: the length of the column transforms.
    pub fn columns(&self) -> (r: usize)
        ensures
            r as int == self.spec_q(),
    {
        self.q
    }

    /// The twiddle exponent of each position.
    pub fn twiddles(&self) -> (r: &Vec<usize>)
        ensures
            r@.map_values(|x: usize| x as int) == self.spec_twiddle(),
    {
        &self.twiddle
    }
}

proof fn lemma_twiddle_bound(a: int, p: int, q: int)
    requires
        0 <= a < p * q,
        p >= 1,
        q >= 1,
    ensures
        0 <= twiddle_exponent(a, q) < p * q,
{
    lemma_mod_pos_bound(a, q);
    lemma_div_pos_is_pos(a, q);
    lemma_fundamental_div_mod(a, q);
    let r = a % q;
    let d = a / q;
    assert(0 <= r * d < p * q) by (nonlinear_arith)
        requires
            a == q * d + r,
            0 <= r < q,
            0 <= d,
            a < p * q,
    ;
}

/// The Cooley-Tukey index identity. For `n = p * q`, input position
/// `a * p + b` and output position `c + q * d` (with `a, c < q` and
/// `b, d < p`), the exponent of the full transform splits, modulo `n`, into
/// the column transform's exponent `a * c` (of size `q`, root `w_n^p`), the
/// twiddle exponent at intermediate position `b * q + c`, and the row
/// transform's exponent `b * d` (of size `p`, root `w_n^q`).
pub proof fn lemma_split_exponent(p: int, q: int, a: int, b: int, c: int, d: int)
    requires
        p >= 1,
        q >= 1,
        0 <= a < q,
        0 <= c < q,
        0 <= b < p,
        0 <= d < p,
    ensures
        ((a * p + b) * (c + q * d)) % (p * q) == (p * ((a * c) % q) + twiddle_exponent(b * q + c, q)
            + q * ((b * d) % p)) % (p * q),
{
    let n = p * q;
    // intermediate position b * q + c has column c and row b
    assert(b * q + c == q * b + c) by (nonlinear_arith);
    lemma_mod_multiples_vanish(b, c, q);
    lemma_small_mod(c as nat, q as nat);
    lemma_div_multiples_vanish_fancy(b, c, q);
    assert(twiddle_exponent(b * q + c, q) == c * b);
    lemma_fundamental_div_mod(a * c, q);
    lemma_fundamental_div_mod(b * d, p);
    let k1 = (a * c) / q;
    let r1 = (a * c) % q;
    let k2 = (b * d) / p;
    let r2 = (b * d) % p;
    let lhs = (a * p + b) * (c + q * d);
    assert(lhs == p * (a * c) + n * (a * d) + c * b + q * (b * d)) by {
        broadcast use vstd::arithmetic::mul::group_mul_is_commutative_and_distributive;
        broadcast use vstd::arithmetic::mul::lemma_mul_is_associative;

        assert(lhs == (a * p) * c + (a * p) * (q * d) + b * c + b * (q * d));
        assert((a * p) * c == p * (a * c));
        assert((a * p) * (q * d) == (p * q) * (a * d));
        assert(b * (q * d) == q * (b * d));
    }
    assert(p * (a * c) == n * k1 + p * r1) by (nonlinear_arith)
        requires n == p * q, a * c == q * k1 + r1;
    assert(q * (b * d) == n * k2 + q * r2) by (nonlinear_arith)
        requires n == p * q, b * d == p * k2 + r2;
    let rhs = p * r1 + c * b + q * r2;
    assert(lhs == n * (a * d + k1 + k2) + rhs) by (nonlinear_arith)
        requires
            lhs == p * (a * c) + n * (a * d) + c * b + q * (b * d),
            p * (a * c) == n * k1 + p * r1,
            q * (b * d) == n * k2 + q * r2,
            rhs == p * r1 + c * b + q * r2,
    ;
    assert(n > 0) by (nonlinear_arith)
        requires n == p * q, p >= 1, q >= 1;
    lemma_mod_multiples_vanish(a * d + k1 + k2, rhs, n);
}

} // verus!
