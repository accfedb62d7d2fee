use crate::bluestein::{is_least_pow2_at_least, is_pow2, next_power_of_two, DFTBluestein};
use crate::factors::{is_prime, lemma_prime_factors, lemma_smallest_factor, lemma_smallest_factor_unique, prime_factors, smallest_factor};
use crate::prime_cache::{get_factors_all, PrimeLore};
use crate::rader::{passes_generator_test, DFTRader};
use crate::radix::DFTRadix;
use std::collections::HashMap;
use vstd::prelude::*;

verus! {

broadcast use vstd::std_specs::hash::group_hash_axioms;

/// Sizes with a hard-coded kernel.
pub open spec fn is_kernel_size(n: int) -> bool {
    n == 1 || n == 2 || n == 3 || n == 4 || n == 5 || n == 6 || n == 8
}

/// The algorithm a plan runs.
#[derive(PartialEq, Eq, Structural, Clone, Copy, Debug)]
pub enum Algorithm {
    Kernel,
    MixedRadix,
    Rader,
    Bluestein,
}

/// Some value in `[2, n)` passes the generator test modulo `n`.
pub open spec fn rader_available(n: int) -> bool {
    exists|h: int| 2 <= h < n && #[trigger] passes_generator_test(h, n)
}

/// The selection rule: a kernel for the sizes that have one; mixed radix for
/// sizes with at least two prime factors; for a prime, Rader when `n - 1` is
/// composite and a generator is found, else Bluestein.
pub open spec fn selected_algorithm(n: int) -> Algorithm {
    if is_kernel_size(n) {
        Algorithm::Kernel
    } else if prime_factors(n).len() >= 2 {
        Algorithm::MixedRadix
    } else if prime_factors(n - 1).len() >= 2 && rader_available(n) {
        Algorithm::Rader
    } else {
        Algorithm::Bluestein
    }
}

/// One plan: an algorithm with its tables, and the ids of its sub-plans in
/// the planner that holds it.
pub enum Plan {
    Kernel { n: usize },
    MixedRadix { radix: DFTRadix, dft_p: Option<usize>, dft_q: Option<usize> },
    Rader { rader: DFTRader, dft_n1: usize },
    Bluestein { bluestein: DFTBluestein, dft_nb: usize },
}

/// `id`, if present, names a plan of `plans` of size `size` built before
/// position `me`.
pub open spec fn link_ok(plans: Seq<Plan>, id: Option<usize>, size: int, me: int) -> bool {
    match id {
        Some(i) => i < me && i < plans.len() && plans[i as int].spec_size() == size,
        None => size == 1,
    }
}

impl Plan {
    /// The transform length.
    pub open spec fn spec_size(&self) -> int {
        match self {
            Plan::Kernel { n } => *n as int,
            Plan::MixedRadix { radix: table, .. } => table.spec_n(),
            Plan::Rader { rader: table, .. } => table.spec_n(),
            Plan::Bluestein { bluestein: table, .. } => table.spec_n(),
        }
    }

    pub open spec fn algorithm(&self) -> Algorithm {
        match self {
            Plan::Kernel { .. } => Algorithm::Kernel,
            Plan::MixedRadix { .. } => Algorithm::MixedRadix,
            Plan::Rader { .. } => Algorithm::Rader,
            Plan::Bluestein { .. } => Algorithm::Bluestein,
        }
    }

    /// Tables are right, and sub-plans, built before this one (at `me`), have
    /// the sizes the algorithm needs: `p` and `q` for mixed radix, `n - 1` for
    /// Rader, `nb` for Bluestein (whose own size is never a power of two).
    pub open spec fn wf_in(&self, plans: Seq<Plan>, me: int) -> bool {
        match self {
            Plan::Kernel { n } => is_kernel_size(*n as int),
            Plan::MixedRadix { radix: table, dft_p, dft_q } => {
                &&& table.wf()
                &&& link_ok(plans, *dft_p, table.spec_p(), me)
                &&& link_ok(plans, *dft_q, table.spec_q(), me)
            },
            Plan::Rader { rader: table, dft_n1 } => {
                &&& table.wf()
                &&& link_ok(plans, Some(*dft_n1), table.spec_n() - 1, me)
            },
            Plan::Bluestein { bluestein: table, dft_nb } => {
                &&& table.wf()
                &&& !is_pow2(table.spec_n())
                &&& is_least_pow2_at_least(table.spec_nb(), 2 * table.spec_n() - 1)
                &&& link_ok(plans, Some(*dft_nb), table.spec_nb(), me)
            },
        }
    }

    pub fn size(&self) -> (r: usize)
        ensures
            r as int == self.spec_size(),
    {
        match self {
            Plan::Kernel { n } => *n,
            Plan::MixedRadix { radix: table, .. } => table.size(),
            Plan::Rader { rader: table, .. } => table.size(),
            Plan::Bluestein { bluestein: table, .. } => table.size(),
        }
    }

    /// The algorithm this plan runs.
    pub fn kind(&self) -> (r: Algorithm)
        ensures
            r == self.algorithm(),
    {
        match self {
            Plan::Kernel { .. } => Algorithm::Kernel,
            Plan::MixedRadix { .. } => Algorithm::MixedRadix,
            Plan::Rader { .. } => Algorithm::Rader,
            Plan::Bluestein { .. } => Algorithm::Bluestein,
        }
    }

    /// Whether the plan may read and write the same buffer: all but mixed
    /// radix, whose column stage writes the output while input is unread.
    pub fn is_inplace(&self) -> (r: bool)
        ensures
            r == !(self.algorithm() == Algorithm::MixedRadix),
    {
        match self {
            Plan::MixedRadix { .. } => false,
            _ => true,
        }
    }
}

/// `a` is a prefix of `b`.
pub open spec fn extends(a: Seq<Plan>, b: Seq<Plan>) -> bool {
    a.len() <= b.len() && forall|i: int| 0 <= i < a.len() ==> #[trigger] b[i] == a[i]
}

proof fn lemma_link_extends(a: Seq<Plan>, b: Seq<Plan>, id: Option<usize>, size: int, me: int)
    requires
        extends(a, b),
        link_ok(a, id, size, me),
    ensures
        link_ok(b, id, size, me),
{
    if let Some(i) = id {
        assert(b[i as int] == a[i as int]);
    }
}

proof fn lemma_wf_in_extends(p: Plan, a: Seq<Plan>, b: Seq<Plan>, me: int)
    requires
        extends(a, b),
        p.wf_in(a, me),
    ensures
        p.wf_in(b, me),
{
    match p {
        Plan::Kernel { .. } => {},
        Plan::MixedRadix { radix: table, dft_p, dft_q } => {
            lemma_link_extends(a, b, dft_p, table.spec_p(), me);
            lemma_link_extends(a, b, dft_q, table.spec_q(), me);
        },
        Plan::Rader { rader: table, dft_n1 } => {
            lemma_link_extends(a, b, Some(dft_n1), table.spec_n() - 1, me);
        },
        Plan::Bluestein { bluestein: table, dft_nb } => {
            lemma_link_extends(a, b, Some(dft_nb), table.spec_nb(), me);
        },
    }
}

/// Plan cache: one canonical plan per size, built on first request and never
/// replaced. Plans refer to their sub-plans by their index in `plans`.
pub struct Planner {
    lore: PrimeLore,
    index: HashMap<usize, usize>,
    plans: Vec<Plan>,
}

impl Planner {
    /// Size to plan id, for every size planned so far.
    pub closed spec fn cache(&self) -> Map<usize, usize> {
        self.index@
    }

    /// The plans built so far, in order of construction.
    pub closed spec fn spec_plans(&self) -> Seq<Plan> {
        self.plans@
    }

    /// The factor table is sound; each cached id names a plan of that size,
    /// built by the selection rule; each plan is sound within the list.
    pub closed spec fn wf(&self) -> bool {
        &&& self.lore.wf()
        &&& forall|n: usize| #[trigger]
            self.index@.contains_key(n) ==> {
                &&& self.index@[n] < self.plans@.len()
                &&& self.plans@[self.index@[n] as int].spec_size() == n
                &&& self.plans@[self.index@[n] as int].algorithm() == selected_algorithm(n as int)
            }
        &&& forall|i: int| 0 <= i < self.plans@.len() ==> #[trigger] self.plans@[i].wf_in(self.plans@, i)
    }

    /// An empty cache, with a warmed factor table.
    pub fn new() -> (r: Planner)
        ensures
            r.wf(),
            r.cache() == Map::<usize, usize>::empty(),
            r.spec_plans().len() == 0,
    {
        Planner { lore: PrimeLore::new(), index: HashMap::new(), plans: Vec::new() }
    }

    /// The plan with id `id`.
    pub fn plan(&self, id: usize) -> (r: &Plan)
        requires
            id < self.spec_plans().len(),
        ensures
            *r == self.spec_plans()[id as int],
            self.wf() ==> r.wf_in(self.spec_plans(), id as int),
    {
        &self.plans[id]
    }

    /// How many plans have been built.
    pub fn num_plans(&self) -> (r: usize)
        ensures
            r == self.spec_plans().len(),
    {
        self.plans.len()
    }
}

/// What a lookup of size `n` that returned `id` leaves behind: `id` names a
/// plan of size `n` built by the selection rule; the cache maps `n` to `id`
/// and keeps every earlier entry, so a size that was cached gets its cached
/// plan back; earlier plans stay where they were.
pub open spec fn plan_found(before: Planner, after: Planner, n: int, id: int) -> bool {
    &&& 0 <= id < after.spec_plans().len()
    &&& after.spec_plans()[id].spec_size() == n
    &&& after.spec_plans()[id].algorithm() == selected_algorithm(n)
    &&& after.cache().contains_key(n as usize)
    &&& after.cache()[n as usize] == id
    &&& cache_kept(before.cache(), after.cache())
    &&& extends(before.spec_plans(), after.spec_plans())
}

/// Every entry of `a` is in `b`, unchanged.
pub open spec fn cache_kept(a: Map<usize, usize>, b: Map<usize, usize>) -> bool {
    forall|k: usize| #[trigger] a.contains_key(k) ==> b.contains_key(k) && b[k] == a[k]
}

proof fn lemma_kept_trans(a: Map<usize, usize>, b: Map<usize, usize>, c: Map<usize, usize>)
    requires
        cache_kept(a, b),
        cache_kept(b, c),
    ensures
        cache_kept(a, c),
{
    assert forall|k: usize| #[trigger] a.contains_key(k) implies c.contains_key(k) && c[k] == a[k] by {
        assert(b.contains_key(k));
    }
}

proof fn lemma_extends_trans(a: Seq<Plan>, b: Seq<Plan>, c: Seq<Plan>)
    requires
        extends(a, b),
        extends(b, c),
    ensures
        extends(a, c),
{
    assert forall|i: int| 0 <= i < a.len() implies #[trigger] c[i] == a[i] by {
        assert(c[i] == b[i]);
    }
}

/// Measure for the recursion of `find_dft`: sub-plans are smaller, but for
/// Bluestein's power of two, which is below four times the size.
pub open spec fn plan_measure(n: int) -> int {
    if is_pow2(n) {
        n
    } else {
        4 * n
    }
}

fn kernel_size(n: usize) -> (r: bool)
    ensures
        r == is_kernel_size(n as int),
{
    n == 1 || n == 2 || n == 3 || n == 4 || n == 5 || n == 6 || n == 8
}

proof fn lemma_prime_when_one_factor(n: int)
    requires
        n >= 2,
        prime_factors(n).len() < 2,
    ensures
        is_prime(n),
        prime_factors(n).len() == 1,
{
    lemma_smallest_factor(n);
    let f = smallest_factor(n);
    if f != n {
        vstd::arithmetic::div_mod::lemma_fundamental_div_mod(n, f);
        let d = n / f;
        assert(d >= 2) by (nonlinear_arith)
            requires n == f * d + 0, f != n, f >= 2, n >= 2;
        lemma_prime_factors(d);
        assert(prime_factors(n) == seq![f] + prime_factors(d));
    }
}

pub(crate) proof fn lemma_prime_not_pow2(n: int)
    requires
        is_prime(n),
        n >= 3,
    ensures
        !is_pow2(n),
{
    assert(n % 2 != 0);
}

pub(crate) proof fn lemma_pow2_split(n: int)
    requires
        is_pow2(n),
        n >= 2,
    ensures
        smallest_factor(n) == 2,
        is_pow2(n / 2),
{
    assert(n % 2 == 0);
    lemma_smallest_factor_unique(n, 2);
}

/// The plan for size `n` in `planner`: the cached one, or a new one built by
/// the selection rule, with its sub-plans, and cached.
pub fn find_dft(planner: &mut Planner, n: usize) -> (id: usize)
    requires
        old(planner).wf(),
        1 <= n,
        plan_measure(n as int) <= usize::MAX / 4,
    ensures
        final(planner).wf(),
        plan_found(*old(planner), *final(planner), n as int, id as int),
    decreases plan_measure(n as int),
{
    if let Some(id) = planner.index.get(&n) {
        let id = *id;
        return id;
    }
    let ghost start = *planner;
    proof {
        assert(cache_kept(start.cache(), start.cache()));
        assert(extends(start.spec_plans(), start.spec_plans()));
    }
    let plan = if kernel_size(n) {
        Plan::Kernel { n }
    } else {
        let (_factors, count) = get_factors_all(&mut planner.lore, n);
        if count >= 2 {
            let table = DFTRadix::new(&mut planner.lore, n);
            let p = table.radix();
            let q = table.columns();
            proof {
                lemma_smallest_factor(n as int);
                lemma_prime_factors(n as int);
                assert(q >= 1) by (nonlinear_arith)
                    requires p * q == n, n >= 1, p >= 1;
                if p == n {
                    // a prime has a single factor
                    assert(prime_factors(n as int) =~= seq![n as int]);
                }
                assert(q < n) by (nonlinear_arith)
                    requires p * q == n, p >= 2, q >= 1;
                if is_pow2(n as int) {
                    lemma_pow2_split(n as int);
                    assert(q == n / 2) by (nonlinear_arith)
                        requires p * q == n, p == 2;
                }
            }
            let ghost mid0 = *planner;
            assert(mid0.cache() == start.cache());
            let dft_p = if p > 1 {
                Some(find_dft(planner, p))
            } else {
                None
            };
            let ghost mid1 = *planner;
            proof {
                lemma_kept_trans(start.cache(), mid0.cache(), mid1.cache());
                lemma_extends_trans(start.spec_plans(), mid0.spec_plans(), mid1.spec_plans());
            }
            let dft_q = if q > 1 {
                Some(find_dft(planner, q))
            } else {
                None
            };
            proof {
                if p > 1 {
                    assert(cache_kept(mid0.cache(), mid1.cache()));
                } else {
                    assert(mid1.cache() == mid0.cache());
                }
                lemma_kept_trans(start.cache(), mid1.cache(), planner.cache());
                lemma_extends_trans(start.spec_plans(), mid1.spec_plans(), planner.spec_plans());
                if let Some(i) = dft_p {
                    assert(mid1.spec_plans()[i as int] == planner.spec_plans()[i as int]);
                }
            }
            Plan::MixedRadix { radix: table, dft_p, dft_q }
        } else {
            proof {
                lemma_prime_when_one_factor(n as int);
            }
            let (_f1, c1) = get_factors_all(&mut planner.lore, n - 1);
            let rader = if c1 >= 2 {
                DFTRader::new(&mut planner.lore, n)
            } else {
                None
            };
            match rader {
                Some(table) => {
                    proof {
                        assert(passes_generator_test(table.spec_g(), n as int));
                    }
                    let sub = find_dft(planner, n - 1);
                    Plan::Rader { rader: table, dft_n1: sub }
                },
                None => {
                    let nb = next_power_of_two(2 * n - 1);
                    let table = DFTBluestein::new(n, nb);
                    proof {
                        assert(nb < 4 * n) by (nonlinear_arith)
                            requires nb / 2 < 2 * n - 1, nb % 2 == 0 || nb == 1, nb >= 1, n >= 1;
                    }
                    proof {
                        assert(!is_pow2(n as int)) by {
                            lemma_prime_not_pow2(n as int);
                        }
                    }
                    let sub = find_dft(planner, nb);
                    Plan::Bluestein { bluestein: table, dft_nb: sub }
                },
            }
        }
    };
    proof {
        assert(cache_kept(start.cache(), planner.cache()));
        assert(extends(start.spec_plans(), planner.spec_plans()));
    }
    if let Some(id) = planner.index.get(&n) {
        let id = *id;
        return id;
    }
    let id = planner.plans.len();
    let ghost before_push = planner.plans@;
    planner.plans.push(plan);
    planner.index.insert(n, id);
    proof {
        assert(extends(before_push, planner.plans@));
        lemma_extends_trans(start.spec_plans(), before_push, planner.plans@);
        assert(!start.cache().contains_key(n));
        assert forall|i: int| 0 <= i < planner.plans@.len() implies #[trigger] planner.plans@[i].wf_in(
            planner.plans@,
            i,
        ) by {
            if i < before_push.len() {
                assert(planner.plans@[i] == before_push[i]);
                lemma_wf_in_extends(before_push[i], before_push, planner.plans@, i);
            } else {
                lemma_wf_in_extends(plan, before_push, planner.plans@, i);
            }
        }
    }
    id
}

/// The same size asked for twice gives the same plan.
pub proof fn lemma_plan_identity(first: Planner, second: Planner, third: Planner, n: int, id1: int, id2: int)
    requires
        plan_found(first, second, n, id1),
        plan_found(second, third, n, id2),
    ensures
        id1 == id2,
        third.spec_plans()[id2] == second.spec_plans()[id1],
{
    assert(second.cache().contains_key(n as usize));
}

} // verus!
