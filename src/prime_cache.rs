use crate::factors::{
    is_prime, lemma_divides_trans, lemma_no_prime_divisor, lemma_prime_by_bound, lemma_smallest_factor,
    lemma_prime_factors, lemma_smallest_factor_unique, prime_factors, smallest_factor,
};
use std::collections::HashMap;
use vstd::arithmetic::div_mod::*;
use vstd::prelude::*;

verus! {

broadcast use vstd::std_specs::hash::group_hash_axioms;

/// Numbers below this bound are factored when a table is created.
pub const WARM_LIMIT: usize = 1024;

/// Memo table of smallest prime factors, with the ordered list of the primes
/// it has met.
///
/// `last_prime` marks how far the list is complete: every prime up to it is
/// in `primes`. Trial division for an unknown number walks the list up to the
/// marker and goes on over odd candidates from there.
pub struct PrimeLore {
    smallest_factors: HashMap<usize, usize>,
    primes: Vec<usize>,
    last_prime: usize,
}

/// The list is strictly increasing.
pub open spec fn strictly_sorted(s: Seq<usize>) -> bool {
    forall|i: int, j: int| 0 <= i < j < s.len() ==> s[i] < s[j]
}

impl PrimeLore {
    /// The memo: each number queried so far, with its smallest factor.
    pub closed spec fn known(&self) -> Map<usize, usize> {
        self.smallest_factors@
    }

    /// The ordered list of primes met so far.
    pub closed spec fn prime_list(&self) -> Seq<usize> {
        self.primes@
    }

    /// How far the prime list is known to be complete.
    pub closed spec fn marker(&self) -> int {
        self.last_prime as int
    }

    /// Sound, and the list and the memo agree: every prime in the memo is in
    /// the list, and every listed prime is in the memo.
    pub closed spec fn wf(&self) -> bool {
        &&& self.sound()
        &&& forall|k: usize| #[trigger]
            self.smallest_factors@.contains_key(k) && self.smallest_factors@[k] == k && k >= 2
                ==> self.primes@.contains(k)
        &&& forall|i: int|
            0 <= i < self.primes@.len() ==> self.smallest_factors@.contains_key(#[trigger] self.primes@[i])
    }

    /// Every memo entry is right, the prime list is sorted, holds primes only,
    /// and holds every prime up to the marker, which is itself prime.
    pub closed spec fn sound(&self) -> bool {
        &&& forall|k: usize| #[trigger]
            self.smallest_factors@.contains_key(k) ==> self.smallest_factors@[k] as int
                == smallest_factor(k as int)
        &&& strictly_sorted(self.primes@)
        &&& forall|i: int| 0 <= i < self.primes@.len() ==> is_prime(#[trigger] self.primes@[i] as int)
        &&& is_prime(self.last_prime as int)
        &&& forall|q: int|
            2 <= q <= self.last_prime && is_prime(q) ==> self.primes@.contains(#[trigger] (q as usize))
    }

    /// A table seeded with 0, 1 and 2 and warmed over `[0, WARM_LIMIT)`: the
    /// memo holds exactly the numbers below the limit, the list holds exactly
    /// the primes below it, in order, and the marker is the largest of them.
    pub fn new() -> (r: Self)
        ensures
            r.wf(),
            forall|k: usize| #[trigger] r.known().contains_key(k) <==> k < WARM_LIMIT,
            forall|q: usize| #[trigger] r.prime_list().contains(q) <==> is_prime(q as int) && q < WARM_LIMIT,
            strictly_sorted(r.prime_list()),
            is_prime(r.marker()),
            r.marker() < WARM_LIMIT,
            forall|q: int| r.marker() < q < WARM_LIMIT ==> !is_prime(q),
    {
        let mut smallest_factors: HashMap<usize, usize> = HashMap::new();
        smallest_factors.insert(0, 0);
        smallest_factors.insert(1, 1);
        smallest_factors.insert(2, 2);
        let mut primes: Vec<usize> = Vec::new();
        primes.push(2);
        let mut s = PrimeLore { smallest_factors, primes, last_prime: 2 };
        proof {
            assert(is_prime(2int));
            assert(s.primes@[0] == 2);
            assert(s.primes@.contains(2usize));
            assert forall|q: int| 2 <= q <= s.last_prime && is_prime(q) implies s.primes@.contains(
                #[trigger] (q as usize),
            ) by {}
            assert(smallest_factor(2) == 2) by {
                lemma_smallest_factor(2);
            }
            assert forall|q: usize| #[trigger] s.primes@.contains(q) implies q == 2 by {
                let j = choose|j: int| 0 <= j < s.primes@.len() && s.primes@[j] == q;
            }
            assert(!is_prime(0int) && !is_prime(1int));
        }
        let mut i: usize = 0;
        while i < WARM_LIMIT
            invariant
                s.wf(),
                i <= WARM_LIMIT,
                forall|k: usize| #[trigger] s.known().contains_key(k) <==> (k < i || k <= 2),
                forall|q: usize|
                    #[trigger] s.prime_list().contains(q) <==> is_prime(q as int) && (q < i || q == 2),
                i >= 3 ==> s.marker() < i && forall|q: int| s.marker() < q < i ==> !is_prime(q),
                i < 3 ==> s.marker() == 2,
            decreases WARM_LIMIT - i,
        {
            let ghost before = s;
            proof {
                if i >= 3 {
                    assert(!before.known().contains_key(i));
                    assert forall|q: usize| before.marker() < q < i implies !is_prime(q as int) && (q % 2 == 0
                        || #[trigger] before.known().contains_key(q)) by {}
                    if is_prime(i as int) {
                        assert(before.advances_to(i));
                    }
                }
            }
            s.find(i);
            proof {
                assert forall|k: usize| #[trigger] s.known().contains_key(k) <==> (k < i + 1 || k <= 2) by {
                    assert(s.known().contains_key(k) <==> (before.known().contains_key(k) || k == i));
                }
                assert forall|q: usize|
                    #[trigger] s.prime_list().contains(q) <==> is_prime(q as int) && (q < i + 1 || q == 2) by {
                    if q == i && is_prime(q as int) {
                        lemma_smallest_factor(q as int);
                    }
                    if s.prime_list().contains(q) && q != i {
                        assert(before.prime_list().contains(q));
                    }
                    if is_prime(q as int) && (q < i || q == 2) {
                        assert(before.prime_list().contains(q));
                    }
                    if s.prime_list().contains(q) {
                        assert(is_prime(s.primes@[choose|j: int| 0 <= j < s.primes@.len() && s.primes@[j] == q] as int));
                    }
                }
                assert(is_prime(s.marker()));
                if i >= 2 {
                    assert forall|q: int| s.marker() < q < i + 1 implies !is_prime(q) by {
                        if q == i && s.marker() != i {
                            assert(s.marker() == before.marker());
                            if is_prime(q) && i >= 3 {
                                assert(s.marker() == i as int);
                            }
                        }
                    }
                }
            }
            i = i + 1;
        }
        s
    }

    /// Position of the first list entry that is not below `n`.
    fn insertion_point(&self, n: usize) -> (pos: usize)
        requires
            strictly_sorted(self.primes@),
        ensures
            pos <= self.primes@.len(),
            forall|i: int| 0 <= i < pos ==> self.primes@[i] < n,
            forall|i: int| pos <= i < self.primes@.len() ==> self.primes@[i] >= n,
    {
        let mut pos: usize = 0;
        while pos < self.primes.len() && self.primes[pos] < n
            invariant
                pos <= self.primes@.len(),
                strictly_sorted(self.primes@),
                forall|i: int| 0 <= i < pos ==> self.primes@[i] < n,
            decreases self.primes@.len() - pos,
        {
            pos = pos + 1;
        }
        pos
    }

    /// Puts the prime `n` into the ordered list, unless it is there.
    fn record_prime(&mut self, n: usize)
        requires
            old(self).sound(),
            is_prime(n as int),
        ensures
            final(self).smallest_factors@ == old(self).smallest_factors@,
            final(self).last_prime == old(self).last_prime,
            final(self).sound(),
            final(self).primes@.contains(n),
            forall|q: usize| old(self).primes@.contains(q) ==> #[trigger] final(self).primes@.contains(q),
            forall|q: usize| #[trigger] final(self).primes@.contains(q) ==> old(self).primes@.contains(q) || q == n,
    {
        let pos = self.insertion_point(n);
        if pos == self.primes.len() {
            self.primes.push(n);
            proof {
                assert(self.primes@[pos as int] == n);
                assert forall|q: usize| old(self).primes@.contains(q) implies #[trigger] self.primes@.contains(q) by {
                    let j = choose|j: int| 0 <= j < old(self).primes@.len() && old(self).primes@[j] == q;
                    assert(self.primes@[j] == q);
                }
                assert forall|q: usize| #[trigger] self.primes@.contains(q) implies old(self).primes@.contains(q) || q
                    == n by {
                    let j = choose|j: int| 0 <= j < self.primes@.len() && self.primes@[j] == q;
                    if j < pos {
                        assert(old(self).primes@[j] == q);
                    }
                }
            }
        } else if self.primes[pos] != n {
            self.primes.insert(pos, n);
            proof {
                assert(self.primes@[pos as int] == n);
                assert forall|q: usize| old(self).primes@.contains(q) implies #[trigger] self.primes@.contains(q) by {
                    let j = choose|j: int| 0 <= j < old(self).primes@.len() && old(self).primes@[j] == q;
                    if j < pos {
                        assert(self.primes@[j] == q);
                    } else {
                        assert(self.primes@[j + 1] == q);
                    }
                }
                assert forall|q: usize| #[trigger] self.primes@.contains(q) implies old(self).primes@.contains(q) || q
                    == n by {
                    let j = choose|j: int| 0 <= j < self.primes@.len() && self.primes@[j] == q;
                    if j < pos {
                        assert(old(self).primes@[j] == q);
                    } else if j > pos {
                        assert(old(self).primes@[j - 1] == q);
                    }
                }
            }
        } else {
            proof {
                assert(self.primes@[pos as int] == n);
            }
        }
    }

    /// A query of `n` moves the marker to `n`: `n` is a prime not yet in the
    /// memo, beyond the marker, and every number in between is composite and
    /// even or in the memo.
    pub open spec fn advances_to(&self, n: usize) -> bool {
        &&& !self.known().contains_key(n)
        &&& is_prime(n as int)
        &&& n > self.marker()
        &&& forall|q: usize|
            self.marker() < q < n ==> !is_prime(q as int) && (q % 2 == 0 || #[trigger] self.known().contains_key(q))
    }

    /// The ordered list of primes met so far.
    pub fn primes(&self) -> (r: &Vec<usize>)
        ensures
            r@ == self.prime_list(),
    {
        &self.primes
    }

    /// The marker: every prime up to it is in the list.
    pub fn last_prime(&self) -> (r: usize)
        ensures
            r as int == self.marker(),
    {
        self.last_prime
    }

    /// `q` is even, or the memo gives it a factor other than itself.
    pub closed spec fn known_composite(&self, q: usize) -> bool {
        q % 2 == 0 || (self.smallest_factors@.contains_key(q) && self.smallest_factors@[q] != q)
    }

    /// Whether every integer strictly between the marker and `n` is known not
    /// to be prime: it is even, or the memo gives it a smaller factor.
    fn gap_is_composite(&self, n: usize) -> (r: bool)
        requires
            self.sound(),
            n > self.last_prime,
        ensures
            r ==> forall|q: int| self.last_prime < q < n ==> !is_prime(q),
            r <==> forall|q: usize| self.last_prime < q < n ==> #[trigger] self.known_composite(q),
    {
        let mut m: usize = self.last_prime + 1;
        while m < n
            invariant
                self.sound(),
                self.last_prime < m <= n,
                forall|q: int| self.last_prime < q < m ==> !is_prime(q),
                forall|q: usize| self.last_prime < q < m ==> #[trigger] self.known_composite(q),
            decreases n - m,
        {
            if m % 2 == 0 {
                proof {
                    assert((m as int) % 2 == 0);
                }
            } else {
                match self.smallest_factors.get(&m) {
                    Some(f) => {
                        if *f == m {
                            proof {
                                assert(self.smallest_factors@.contains_key(m));
                                assert(!self.known_composite(m));
                            }
                            return false;
                        }
                        proof {
                            assert(self.smallest_factors@.contains_key(m));
                            assert(self.smallest_factors@[m] == *f);
                            lemma_smallest_factor(m as int);
                        }
                    },
                    None => {
                        proof {
                            assert(!self.smallest_factors@.contains_key(m));
                            assert(!self.known_composite(m));
                        }
                        return false;
                    },
                }
            }
            proof {
                assert(self.known_composite(m));
            }
            m = m + 1;
        }
        true
    }

    /// Trial division: the known primes up to the marker, then odd
    /// candidates from the marker rounded up to odd, while `p * p <= n`.
    fn search(&self, n: usize) -> (r: usize)
        requires
            self.sound(),
        ensures
            r as int == smallest_factor(n as int),
    {
        let lp = self.last_prime;
        let mut i: usize = 0;
        while i < self.primes.len() && self.primes[i] <= lp
            invariant
                self.sound(),
                lp == self.last_prime,
                i <= self.primes@.len(),
                forall|j: int| 0 <= j < i ==> (n as int) % (#[trigger] self.primes@[j] as int) != 0,
                forall|j: int| 0 <= j < i ==> #[trigger] self.primes@[j] <= lp,
            decreases self.primes@.len() - i,
        {
            let p = self.primes[i];
            proof {
                self.lemma_primes_below(n, i as int, p as int);
            }
            if p > n / p {
                proof {
                    lemma_div_bound(n as int, p as int);
                    if n >= 2 {
                        lemma_no_prime_divisor(n as int, p as int);
                        lemma_prime_by_bound(n as int, p as int);
                        lemma_smallest_factor(n as int);
                    }
                }
                return n;
            }
            if n % p == 0 {
                proof {
                    lemma_div_bound(n as int, p as int);
                    assert(p as int <= n) by (nonlinear_arith)
                        requires p as int * p as int <= n, p >= 2;
                    lemma_no_prime_divisor(n as int, p as int);
                    lemma_smallest_factor_unique(n as int, p as int);
                }
                return p;
            }
            i = i + 1;
        }
        proof {
            self.lemma_primes_below(n, i as int, lp as int + 1);
            assert(is_prime(2int));
            assert((n as int) % 2 != 0);
            lemma_no_prime_divisor(n as int, lp as int + 1);
        }
        let mut p: usize = if lp % 2 == 0 { lp + 1 } else { lp };
        while p <= n / p
            invariant
                p % 2 == 1,
                p >= 3,
                n >= 1,
                (n as int) % 2 != 0,
                forall|k: int| 2 <= k < p ==> #[trigger] ((n as int) % k) != 0,
            decreases n - p,
        {
            proof {
                lemma_div_bound(n as int, p as int);
                assert(p as int + 2 <= n) by (nonlinear_arith)
                    requires p as int * p as int <= n, p >= 3;
            }
            if n % p == 0 {
                proof {
                    lemma_smallest_factor_unique(n as int, p as int);
                }
                return p;
            }
            proof {
                assert forall|k: int| 2 <= k < p + 2 implies #[trigger] ((n as int) % k) != 0 by {
                    if k == p + 1 && (n as int) % k == 0 {
                        assert(k % 2 == 0);
                        lemma_divides_trans(2, k, n as int);
                    }
                }
            }
            p = p + 2;
        }
        proof {
            lemma_div_bound(n as int, p as int);
            if n >= 2 {
                lemma_prime_by_bound(n as int, p as int);
                lemma_smallest_factor(n as int);
            }
        }
        n
    }

    /// After the list has been walked to index `i`, with every entry so far
    /// at most the marker, no prime below `c` divides `n`, for any `c` that is
    /// at most the entry at `i` (or one past the marker).
    proof fn lemma_primes_below(&self, n: usize, i: int, c: int)
        requires
            self.sound(),
            0 <= i <= self.primes@.len(),
            forall|j: int| 0 <= j < i ==> (n as int) % (#[trigger] self.primes@[j] as int) != 0,
            forall|j: int| 0 <= j < i ==> #[trigger] self.primes@[j] <= self.last_prime,
            i < self.primes@.len() ==> c <= self.primes@[i] || self.primes@[i] > self.last_prime,
            c <= self.last_prime + 1,
        ensures
            forall|q: int| 2 <= q < c && is_prime(q) ==> #[trigger] ((n as int) % q) != 0,
    {
        assert forall|q: int| 2 <= q < c && is_prime(q) implies #[trigger] ((n as int) % q) != 0 by {
            assert(self.primes@.contains(q as usize));
            let j = choose|j: int| 0 <= j < self.primes@.len() && self.primes@[j] == q as usize;
            if j >= i {
                if j > i {
                    assert(self.primes@[i] < self.primes@[j]);
                }
            }
        }
    }

    /// The smallest prime factor of `n` (`n` itself for 0 and 1), memoized.
    ///
    /// A prime `n` enters the ordered prime list. The marker moves only to
    /// `n`, and does so when `n` is a new prime beyond it and every number in
    /// between is known to be composite (even, or in the memo).
    pub fn find(&mut self, n: usize) -> (r: usize)
        requires
            old(self).wf(),
        ensures
            final(self).wf(),
            r as int == smallest_factor(n as int),
            final(self).known() == old(self).known().insert(n, r),
            n >= 2 && r == n ==> final(self).prime_list().contains(n),
            forall|q: usize| old(self).prime_list().contains(q) ==> #[trigger] final(self).prime_list().contains(q),
            forall|q: usize| #[trigger] final(self).prime_list().contains(q) ==> old(self).prime_list().contains(q) || q == n,
            final(self).marker() == old(self).marker() || final(self).marker() == n,
            old(self).advances_to(n) ==> final(self).marker() == n,
    {
        if let Some(f) = self.smallest_factors.get(&n) {
            let r = *f;
            proof {
                assert(self.known().insert(n, r) =~= self.known());
                if n >= 2 && r == n {
                    assert(self.smallest_factors@.contains_key(n));
                }
            }
            return r;
        }
        let ghost pre = *self;
        let solution = self.search(n);
        proof {
            if n >= 2 {
                lemma_smallest_factor(n as int);
            }
        }
        let ghost premise = old(self).advances_to(n);
        if solution == n && n >= 2 {
            self.record_prime(n);
            proof {
                if premise {
                    assert forall|q: usize| self.last_prime < q < n implies #[trigger] self.known_composite(q) by {
                        if q % 2 != 0 {
                            assert(old(self).marker() < q < n);
                            assert(old(self).known().contains_key(q));
                            assert(pre.smallest_factors@.contains_key(q));
                            lemma_smallest_factor(q as int);
                        }
                    }
                }
            }
            if n > self.last_prime && self.gap_is_composite(n) {
                self.last_prime = n;
                proof {
                    assert forall|q: int| 2 <= q <= self.last_prime && is_prime(q) implies self.primes@.contains(
                        #[trigger] (q as usize),
                    ) by {
                        if q == n as int {
                        } else {
                            assert(q <= old(self).last_prime);
                        }
                    }
                }
            }
        }
        proof {
            if premise {
                assert(self.last_prime == n);
            }
        }
        self.smallest_factors.insert(n, solution);
        proof {
            assert forall|k: usize| #[trigger]
                self.smallest_factors@.contains_key(k) && self.smallest_factors@[k] == k && k >= 2
                    implies self.primes@.contains(k) by {
                if k != n {
                    assert(pre.smallest_factors@.contains_key(k));
                    assert(pre.primes@.contains(k));
                }
            }
            assert forall|i: int| 0 <= i < self.primes@.len() implies self.smallest_factors@.contains_key(
                #[trigger] self.primes@[i],
            ) by {
                let q = self.primes@[i];
                assert(self.primes@.contains(q));
                if q != n {
                    assert(pre.primes@.contains(q));
                    let j = choose|j: int| 0 <= j < pre.primes@.len() && pre.primes@[j] == q;
                    assert(pre.smallest_factors@.contains_key(pre.primes@[j]));
                }
            }
        }
        proof {
            assert(premise ==> self.marker() == n as int);
        }
        solution
    }
}

/// A memo entry, once made, is the smallest factor of its number in every
/// sound table: a later query of the same number gives the same value, and
/// `find` keeps every earlier entry as it was.
pub proof fn lemma_known_is_smallest_factor(lore: PrimeLore, n: usize)
    requires
        lore.wf(),
        lore.known().contains_key(n),
    ensures
        lore.known()[n] as int == smallest_factor(n as int),
{
}

/// The factors of `n >= 1` multiply back to `n`, and each of them is prime.
pub proof fn lemma_factors_recover(n: int)
    requires
        n >= 1,
    ensures
        crate::factors::product(prime_factors(n)) == n,
        crate::factors::all_prime(prime_factors(n)),
{
    lemma_prime_factors(n);
}

/// The list viewed as mathematical integers.
pub open spec fn as_ints(s: Seq<usize>) -> Seq<int> {
    s.map_values(|x: usize| x as int)
}

/// All prime factors of `n` with multiplicity, smallest first, and how many
/// there are; `([], 0)` for `n <= 1`. Each step divides out the smallest
/// factor that `lore` finds.
pub fn get_factors_all(lore: &mut PrimeLore, n: usize) -> (r: (Vec<usize>, usize))
    requires
        old(lore).wf(),
    ensures
        final(lore).wf(),
        forall|k: usize| #[trigger] old(lore).known().contains_key(k) ==> final(lore).known().contains_key(k)
            && final(lore).known()[k] == old(lore).known()[k],
        as_ints(r.0@) == prime_factors(n as int),
        r.1 == r.0@.len(),
{
    let mut factors: Vec<usize> = Vec::new();
    if n <= 1 {
        proof {
            assert(as_ints(factors@) =~= prime_factors(n as int));
        }
        return (factors, 0);
    }
    let mut m: usize = n;
    loop
        invariant_except_break
            lore.wf(),
            m >= 2,
            as_ints(factors@) + prime_factors(m as int) == prime_factors(n as int),
        invariant
            forall|k: usize| #[trigger] old(lore).known().contains_key(k) ==> lore.known().contains_key(k)
                && lore.known()[k] == old(lore).known()[k],
        ensures
            lore.wf(),
            as_ints(factors@) == prime_factors(n as int),
        decreases m,
    {
        let ghost before = lore.known();
        let f = lore.find(m);
        proof {
            lemma_smallest_factor(m as int);
        }
        let ghost fs = factors@;
        factors.push(f);
        proof {
            assert(as_ints(factors@) =~= as_ints(fs) + seq![f as int]);
            assert(lore.known().contains_key(m));
        }
        if f == m {
            proof {
                assert(prime_factors(m as int) =~= seq![m as int]);
            }
            break;
        }
        proof {
            vstd::arithmetic::div_mod::lemma_div_decreases(m as int, f as int);
            vstd::arithmetic::div_mod::lemma_fundamental_div_mod(m as int, f as int);
            let d = (m / f) as int;
            assert(d >= 2) by (nonlinear_arith)
                requires m as int == f as int * d + 0, f as int != m as int, f >= 2, m >= 2;
            assert(prime_factors(m as int) == seq![f as int] + prime_factors(d));
            assert(as_ints(factors@) + prime_factors(d) =~= as_ints(fs) + prime_factors(m as int));
        }
        m = m / f;
    }
    let count = factors.len();
    (factors, count)
}

/// For positive `p`, `p <= n / p` says exactly `p * p <= n`.
proof fn lemma_div_bound(n: int, p: int)
    requires
        p > 0,
        n >= 0,
    ensures
        (p <= n / p) <==> (p * p <= n),
{
    lemma_fundamental_div_mod(n, p);
    lemma_mod_pos_bound(n, p);
    let d = n / p;
    let r = n % p;
    assert((p <= d) <==> (p * p <= n)) by (nonlinear_arith)
        requires
            n == p * d + r,
            0 <= r < p,
            p > 0,
    ;
}

} // verus!
