use crate::modular::mul_mod;
use vstd::prelude::*;

verus! {

/// `x` is a power of two.
pub open spec fn is_pow2(x: int) -> bool
    decreases x,
{
    if x <= 0 {
        false
    } else if x == 1 {
        true
    } else {
        x % 2 == 0 && is_pow2(x / 2)
    }
}

/// `r` is the least power of two that is at least `x`.
pub open spec fn is_least_pow2_at_least(r: int, x: int) -> bool {
    &&& is_pow2(r)
    &&& r >= x
    &&& (r == 1 || r / 2 < x)
}

/// Exponent of the chirp at `k` for a size `n`: `k^2 mod 2n`, for the factor
/// `exp(-2 pi i e / 2n) = exp(-pi i k^2 / n)`.
pub open spec fn chirp_exponent(k: int, n: int) -> int {
    (k * k) % (2 * n)
}

/// Where entry `j` of the length-`nb` convolution kernel comes from: chirp
/// entry `j` for `j < n`, chirp entry `nb - j` for `j > nb - n`, and none
/// (a zero) in between.
pub open spec fn kernel_source(j: int, n: int, nb: int) -> Option<int> {
    if j < n {
        Some(j)
    } else if j > nb - n {
        Some(nb - j)
    } else {
        None
    }
}

/// The least power of two that is at least `x`.
pub fn next_power_of_two(x: usize) -> (r: usize)
    requires
        x <= usize::MAX / 2,
    ensures
        is_least_pow2_at_least(r as int, x as int),
{
    let mut v: usize = 1;
    while v < x
        invariant
            is_pow2(v as int),
            v == 1 || v / 2 < x,
            x <= usize::MAX / 2,
            v >= 1,
        decreases 2 * x - v,
    {
        proof {
            assert((2 * v) as int / 2 == v);
        }
        v = v * 2;
    }
    v
}

/// Chirp exponents and sizes of Bluestein's algorithm for a size `n`: the
/// convolution length `nb`, the least power of two that is at least
/// `2n - 1`, and `k^2 mod 2n` for each `k` in `[0, n)`.
pub struct DFTBluestein {
    n: usize,
    nb: usize,
    chirp: Vec<usize>,
}

impl DFTBluestein {
    pub closed spec fn spec_n(&self) -> int {
        self.n as int
    }

    pub closed spec fn spec_nb(&self) -> int {
        self.nb as int
    }

    pub closed spec fn spec_chirp(&self) -> Seq<int> {
        self.chirp@.map_values(|x: usize| x as int)
    }

    /// Chirp table of the size `spec_n()`, with a power-of-two convolution
    /// length of at least `2n - 1`.
    pub open spec fn wf(&self) -> bool {
        &&& self.spec_n() >= 1
        &&& is_pow2(self.spec_nb())
        &&& self.spec_nb() >= 2 * self.spec_n() - 1
        &&& self.spec_chirp() == Seq::new(self.spec_n() as nat, |k: int| chirp_exponent(k, self.spec_n()))
    }

    /// The tables for size `n` with convolution length `nb`.
    pub fn new(n: usize, nb: usize) -> (r: DFTBluestein)
        requires
            1 <= n <= usize::MAX / 4,
            is_pow2(nb as int),
            nb >= 2 * n - 1,
        ensures
            r.wf(),
            r.spec_n() == n,
            r.spec_nb() == nb,
    {
        let mut chirp: Vec<usize> = Vec::new();
        let mut k: usize = 0;
        while k < n
            invariant
                1 <= n <= usize::MAX / 4,
                k <= n,
                chirp@.len() == k,
                forall|j: int| 0 <= j < k ==> #[trigger] chirp@[j] as int == chirp_exponent(j, n as int),
            decreases n - k,
        {
            chirp.push(mul_mod(k, k, 2 * n));
            k = k + 1;
        }
        let r = DFTBluestein { n, nb, chirp };
        proof {
            assert(r.spec_chirp() =~= Seq::new(n as nat, |k: int| chirp_exponent(k, n as int)));
        }
        r
    }

    pub fn size(&self) -> (r: usize)
        ensures
            r as int == self.spec_n(),
    {
        self.n
    }

    /// The convolution length.
    pub fn conv_size(&self) -> (r: usize)
        ensures
            r as int == self.spec_nb(),
    {
        self.nb
    }

    /// `k^2 mod 2n` for each `k` in `[0, n)`.
    pub fn chirp(&self) -> (r: &Vec<usize>)
        ensures
            r@.map_values(|x: usize| x as int) == self.spec_chirp(),
    {
        &self.chirp
    }

    /// For each entry of the length-`nb` kernel, the chirp entry it is built
    /// from, if any.
    pub fn kernel_sources(&self) -> (r: Vec<Option<usize>>)
        requires
            self.wf(),
        ensures
            r@.len() == self.spec_nb(),
            forall|j: int|
                0 <= j < self.spec_nb() ==> (match #[trigger] r@[j] {
                    Some(s) => kernel_source(j, self.spec_n(), self.spec_nb()) == Some(s as int),
                    None => kernel_source(j, self.spec_n(), self.spec_nb()) is None,
                }),
    {
        let n = self.n;
        let nb = self.nb;
        let mut out: Vec<Option<usize>> = Vec::new();
        let mut j: usize = 0;
        while j < nb
            invariant
                n as int == self.spec_n(),
                nb as int == self.spec_nb(),
                self.wf(),
                j <= nb,
                out@.len() == j,
                forall|i: int|
                    0 <= i < j ==> (match #[trigger] out@[i] {
                        Some(s) => kernel_source(i, n as int, nb as int) == Some(s as int),
                        None => kernel_source(i, n as int, nb as int) is None,
                    }),
            decreases nb - j,
        {
            if j < n {
                out.push(Some(j));
            } else if j > nb - n {
                out.push(Some(nb - j));
            } else {
                out.push(None);
            }
            j = j + 1;
        }
        out
    }
}

} // verus!
