use crate::factors::{is_prime, prime_factors};
use crate::modular::{mul_mod, powermod};
use crate::prime_cache::{as_ints, get_factors_all, PrimeLore};
use vstd::arithmetic::div_mod::*;
use vstd::arithmetic::power::*;
use vstd::prelude::*;

verus! {

/// `g` passes the generator test modulo `n`: for every prime factor `q` of
/// `n - 1`, `g^((n - 1) / q)` is not 1 modulo `n`.
pub open spec fn passes_generator_test(g: int, n: int) -> bool {
    forall|i: int|
        0 <= i < prime_factors(n - 1).len() ==> #[trigger] pow(g, ((n - 1) / prime_factors(n - 1)[i]) as nat)
            % n != 1
}

/// `g` is the least value in `[2, n)` that passes the generator test.
pub open spec fn is_least_generator(g: int, n: int) -> bool {
    &&& 2 <= g < n
    &&& passes_generator_test(g, n)
    &&& forall|h: int| 2 <= h < g ==> !#[trigger] passes_generator_test(h, n)
}

/// `g^i mod n` for `i` in `[0, len)`.
pub open spec fn power_seq(g: int, n: int, len: nat) -> Seq<int> {
    Seq::new(len, |i: int| pow(g, i as nat) % n)
}

/// Whether `g` passes the generator test, given the prime factors of `n - 1`.
pub fn passes_test(g: usize, n: usize, factors: &Vec<usize>) -> (r: bool)
    requires
        n >= 2,
        as_ints(factors@) == prime_factors(n as int - 1),
    ensures
        r == passes_generator_test(g as int, n as int),
{
    let mut i: usize = 0;
    while i < factors.len()
        invariant
            n >= 2,
            as_ints(factors@) == prime_factors(n as int - 1),
            i <= factors@.len(),
            forall|j: int|
                0 <= j < i ==> #[trigger] pow(g as int, ((n - 1) / prime_factors(n - 1)[j]) as nat)
                    % n as int != 1,
        decreases factors@.len() - i,
    {
        proof {
            assert(as_ints(factors@)[i as int] == factors@[i as int] as int);
            crate::factors::lemma_prime_factors(n as int - 1);
            assert(crate::factors::is_prime(prime_factors(n as int - 1)[i as int]));
        }
        let q = factors[i];
        if powermod(g, (n - 1) / q, n) == 1 {
            proof {
                let pf = prime_factors(n as int - 1);
                assert(q as int == pf[i as int]);
                assert(pow(g as int, ((n as int - 1) / pf[i as int]) as nat) % n as int == 1);
            }
            return false;
        }
        i = i + 1;
    }
    true
}

/// The least generator candidate of `[2, n)` that passes the test, if any.
pub fn find_generator(n: usize, factors: &Vec<usize>) -> (r: Option<usize>)
    requires
        n >= 3,
        as_ints(factors@) == prime_factors(n as int - 1),
    ensures
        match r {
            Some(g) => is_least_generator(g as int, n as int),
            None => forall|h: int| 2 <= h < n ==> !#[trigger] passes_generator_test(h, n as int),
        },
{
    let mut g: usize = 2;
    while g < n
        invariant
            n >= 3,
            2 <= g <= n,
            as_ints(factors@) == prime_factors(n as int - 1),
            forall|h: int| 2 <= h < g ==> !#[trigger] passes_generator_test(h, n as int),
        decreases n - g,
    {
        if passes_test(g, n, factors) {
            return Some(g);
        }
        g = g + 1;
    }
    None
}

/// `g^i mod n` for each `i` in `[0, len)`.
pub fn power_table(g: usize, n: usize, len: usize) -> (r: Vec<usize>)
    requires
        n >= 1,
    ensures
        as_ints(r@) == power_seq(g as int, n as int, len as nat),
{
    let mut table: Vec<usize> = Vec::new();
    let mut gp: usize = 1 % n;
    let mut i: usize = 0;
    proof {
        lemma_pow0(g as int);
    }
    while i < len
        invariant
            n >= 1,
            i <= len,
            table@.len() == i,
            gp as int == pow(g as int, i as nat) % n as int,
            forall|j: int| 0 <= j < i ==> #[trigger] table@[j] as int == pow(g as int, j as nat) % n as int,
        decreases len - i,
    {
        table.push(gp);
        proof {
            lemma_pow_adds(g as int, i as nat, 1);
            lemma_pow1(g as int);
            lemma_mul_mod_noop_left(pow(g as int, i as nat), g as int, n as int);
        }
        gp = mul_mod(gp, g, n);
        i = i + 1;
    }
    proof {
        assert(as_ints(table@) =~= power_seq(g as int, n as int, len as nat));
    }
    table
}

/// Index tables of Rader's algorithm for a prime size `n`: the least
/// generator `g`, its inverse `g^(n-2) mod n`, and the permutations
/// `g^i mod n` and `g_inv^i mod n` for `i` in `[0, n - 1)`. The kernel of the
/// convolution is the transform of `w(g_inv^i mod n, n)`.
pub struct DFTRader {
    n: usize,
    g: usize,
    g_inv: usize,
    perm: Vec<usize>,
    inv_perm: Vec<usize>,
}

impl DFTRader {
    pub closed spec fn spec_n(&self) -> int {
        self.n as int
    }

    pub closed spec fn spec_g(&self) -> int {
        self.g as int
    }

    pub closed spec fn spec_g_inv(&self) -> int {
        self.g_inv as int
    }

    pub closed spec fn spec_perm(&self) -> Seq<int> {
        as_ints(self.perm@)
    }

    pub closed spec fn spec_inv_perm(&self) -> Seq<int> {
        as_ints(self.inv_perm@)
    }

    /// The tables are those of the prime `spec_n()`.
    pub open spec fn wf(&self) -> bool {
        let n = self.spec_n();
        &&& n >= 3
        &&& is_prime(n)
        &&& is_least_generator(self.spec_g(), n)
        &&& self.spec_g_inv() == pow(self.spec_g(), (n - 2) as nat) % n
        &&& self.spec_perm() == power_seq(self.spec_g(), n, (n - 1) as nat)
        &&& self.spec_inv_perm() == power_seq(self.spec_g_inv(), n, (n - 1) as nat)
    }

    /// Tables for the prime `n`, or `None` when no value in `[2, n)` passes
    /// the generator test.
    pub fn new(lore: &mut PrimeLore, n: usize) -> (r: Option<DFTRader>)
        requires
            old(lore).wf(),
            n >= 3,
            is_prime(n as int),
        ensures
            final(lore).wf(),
            forall|k: usize| #[trigger] old(lore).known().contains_key(k) ==> final(lore).known().contains_key(k)
                && final(lore).known()[k] == old(lore).known()[k],
            match r {
                Some(plan) => plan.wf() && plan.spec_n() == n,
                None => forall|h: int| 2 <= h < n ==> !#[trigger] passes_generator_test(h, n as int),
            },
    {
        let (factors, _count) = get_factors_all(lore, n - 1);
        match find_generator(n, &factors) {
            None => None,
            Some(g) => {
                let g_inv = powermod(g, n - 2, n);
                let perm = power_table(g, n, n - 1);
                let inv_perm = power_table(g_inv, n, n - 1);
                Some(DFTRader { n, g, g_inv, perm, inv_perm })
            },
        }
    }

    pub fn size(&self) -> (r: usize)
        ensures
            r as int == self.spec_n(),
    {
        self.n
    }

    pub fn generator(&self) -> (r: usize)
        ensures
            r as int == self.spec_g(),
    {
        self.g
    }

    pub fn generator_inverse(&self) -> (r: usize)
        ensures
            r as int == self.spec_g_inv(),
    {
        self.g_inv
    }

    /// `g^i mod n` for `i` in `[0, n - 1)`.
    pub fn permutation(&self) -> (r: &Vec<usize>)
        ensures
            as_ints(r@) == self.spec_perm(),
    {
        &self.perm
    }

    /// `g_inv^i mod n` for `i` in `[0, n - 1)`.
    pub fn inverse_permutation(&self) -> (r: &Vec<usize>)
        ensures
            as_ints(r@) == self.spec_inv_perm(),
    {
        &self.inv_perm
    }
}

} // verus!
