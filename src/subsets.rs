use vstd::prelude::*;
use crate::indexing::Indexing;

verus! {

/// The number of `k`-element subsets of an `n`-element set.
pub open spec fn binomial(n: nat, k: nat) -> nat
    decreases n,
{
    if k == 0 {
        1
    } else if n == 0 {
        0
    } else {
        binomial((n - 1) as nat, (k - 1) as nat) + binomial((n - 1) as nat, k)
    }
}

/// `n * (n - 1) * ... * (n - k + 1)`.
pub open spec fn falling(n: nat, k: nat) -> nat
    decreases k,
{
    if k == 0 {
        1
    } else {
        falling(n, (k - 1) as nat) * ((n - (k - 1)) as nat)
    }
}

pub open spec fn strictly_increasing(xs: Seq<usize>) -> bool {
    forall|i: int, j: int| 0 <= i < j < xs.len() ==> xs[i] < xs[j]
}

pub open spec fn nondecreasing(xs: Seq<usize>) -> bool {
    forall|i: int, j: int| 0 <= i <= j < xs.len() ==> xs[i] <= xs[j]
}

/// The rank of an increasing sequence in the combinatorial number system:
/// the sum of `binomial(xs[i], i + 1)`.
pub open spec fn combinadic_rank(xs: Seq<usize>) -> nat
    decreases xs.len(),
{
    if xs.len() == 0 {
        0
    } else {
        combinadic_rank(xs.drop_last()) + binomial(xs.last() as nat, xs.len())
    }
}

/// Adds its position to each element: turns a multiset in ascending order
/// into a set.
pub open spec fn spread(ys: Seq<usize>) -> Seq<usize> {
    Seq::new(ys.len(), |i: int| (ys[i] + i) as usize)
}

/// Relies on `number_encoding::combination`: the number of `k`-element
/// subsets of an `n`-element set. Its running product stays below
/// `falling(n, k)`, which therefore has to fit.
#[verifier::external_body]
fn combination(n: usize, k: usize) -> (r: usize)
    requires
        k > n || falling(n as nat, k as nat) <= usize::MAX,
    ensures
        r == binomial(n as nat, k as nat),
{
    number_encoding::combination(n, k)
}

/// Relies on `number_encoding::combinadics::decode`: the `k` strictly
/// increasing numbers whose combinatorial rank is `rank`. Its intermediate
/// products stay below `rank * m` for any `m` with `rank < binomial(m, k)`.
#[verifier::external_body]
fn combinadics_decode(rank: usize, k: usize) -> (r: Vec<usize>)
    requires
        exists|m: nat| rank < binomial(m, k as nat) && rank * m <= usize::MAX,
    ensures
        r@.len() == k,
        strictly_increasing(r@),
        combinadic_rank(r@) == rank,
{
    number_encoding::combinadics::decode(rank, k)
}

pub proof fn lemma_binomial_monotone(a: nat, b: nat, k: nat)
    requires
        a <= b,
    ensures
        binomial(a, k) <= binomial(b, k),
    decreases b - a,
{
    if a < b {
        lemma_binomial_monotone(a, (b - 1) as nat, k);
        if k > 0 {
            assert(binomial(b, k) == binomial((b - 1) as nat, (k - 1) as nat) + binomial(
                (b - 1) as nat,
                k,
            ));
        }
    }
}

/// A sequence of rank below `binomial(n, xs.len())` has its elements below `n`.
pub proof fn lemma_rank_bounds_elements(xs: Seq<usize>, n: nat)
    requires
        strictly_increasing(xs),
        combinadic_rank(xs) < binomial(n, xs.len()),
    ensures
        forall|i: int| 0 <= i < xs.len() ==> xs[i] < n,
{
    if xs.len() > 0 {
        let top = xs.last() as nat;
        if top >= n {
            lemma_binomial_monotone(n, top, xs.len());
        }
        assert forall|i: int| 0 <= i < xs.len() implies xs[i] < n by {
            if i < xs.len() - 1 {
                assert(xs[i] < xs[xs.len() - 1]);
            }
        }
    }
}

pub proof fn lemma_increasing_at_least_index(xs: Seq<usize>)
    requires
        strictly_increasing(xs),
    ensures
        forall|i: int| 0 <= i < xs.len() ==> xs[i] >= i,
{
    assert forall|i: int| 0 <= i < xs.len() implies xs[i] >= i by {
        lemma_increasing_at_least_index_upto(xs, i);
    }
}

proof fn lemma_increasing_at_least_index_upto(xs: Seq<usize>, i: int)
    requires
        strictly_increasing(xs),
        0 <= i < xs.len(),
    ensures
        xs[i] >= i,
    decreases i,
{
    if i > 0 {
        lemma_increasing_at_least_index_upto(xs, i - 1);
        assert(xs[i - 1] < xs[i]);
    }
}

/// An increasing sequence ranks below `binomial(last + 1, len)`.
pub proof fn lemma_rank_below_next(xs: Seq<usize>)
    requires
        strictly_increasing(xs),
        xs.len() >= 1,
    ensures
        combinadic_rank(xs) < binomial((xs.last() + 1) as nat, xs.len()),
    decreases xs.len(),
{
    let k = xs.len();
    let top = xs.last() as nat;
    let prefix = xs.drop_last();
    if k >= 2 {
        lemma_rank_below_next(prefix);
        assert(prefix.last() < xs.last());
        lemma_binomial_monotone((prefix.last() + 1) as nat, top, (k - 1) as nat);
    }
    assert(combinadic_rank(prefix) < binomial(top, (k - 1) as nat));
    assert(combinadic_rank(xs) == combinadic_rank(prefix) + binomial(top, k));
    assert(binomial(top + 1, k) == binomial(top, (k - 1) as nat) + binomial(top, k));
}

/// Increasing sequences of one length with the same rank are equal.
pub proof fn lemma_rank_injective(xs: Seq<usize>, ys: Seq<usize>)
    requires
        strictly_increasing(xs),
        strictly_increasing(ys),
        xs.len() == ys.len(),
        combinadic_rank(xs) == combinadic_rank(ys),
    ensures
        xs == ys,
    decreases xs.len(),
{
    let k = xs.len();
    if k == 0 {
        assert(xs =~= ys);
    } else {
        if xs.last() < ys.last() {
            lemma_rank_below_next(xs);
            lemma_binomial_monotone((xs.last() + 1) as nat, ys.last() as nat, k);
        } else if ys.last() < xs.last() {
            lemma_rank_below_next(ys);
            lemma_binomial_monotone((ys.last() + 1) as nat, xs.last() as nat, k);
        }
        lemma_rank_injective(xs.drop_last(), ys.drop_last());
        assert(xs =~= xs.drop_last().push(xs.last()));
        assert(ys =~= ys.drop_last().push(ys.last()));
    }
}

/// A `k`-subset of `{0, .., n - 1}` ranks below `binomial(n, k)`.
pub proof fn lemma_rank_below_binomial(xs: Seq<usize>, n: nat)
    requires
        strictly_increasing(xs),
        forall|i: int| 0 <= i < xs.len() ==> xs[i] < n,
    ensures
        combinadic_rank(xs) < binomial(n, xs.len()),
{
    if xs.len() >= 1 {
        lemma_rank_below_next(xs);
        lemma_binomial_monotone((xs.last() + 1) as nat, n, xs.len());
    }
}

/// Enumerates the `k`-element subsets of `{0, .., n - 1}` as ascending
/// vectors, in the order of their combinatorial rank.
#[derive(Clone)]
pub struct KSubsets {
    pub n: usize,
    pub k: usize,
}

impl KSubsets {
    /// The space's count and every rank below it can be computed in `usize`.
    /// The bound is conservative: it asks the whole falling product
    /// `n * (n - 1) * .. * (n - k + 1)` to fit, which is what the count's
    /// running product is known to stay under, so some spaces whose count
    /// would fit are refused. With `k > n` the space is empty; with `k == 0`
    /// it holds the empty set.
    pub open spec fn fits(n: nat, k: nat) -> bool {
        k > n || (falling(n, k) <= usize::MAX && binomial(n, k) * n <= usize::MAX)
    }

    pub fn new(n: usize, k: usize) -> (r: Self)
        requires
            Self::fits(n as nat, k as nat),
        ensures
            r.n == n,
            r.k == k,
            r.wf(),
    {
        Self { n, k }
    }
}

impl Indexing for KSubsets {
    type Item = Vec<usize>;

    open spec fn wf(&self) -> bool {
        Self::fits(self.n as nat, self.k as nat)
    }

    open spec fn spec_len(&self) -> nat {
        binomial(self.n as nat, self.k as nat)
    }

    /// The ascending subset of `{0, .., n - 1}` whose combinatorial rank is `at`.
    open spec fn produces(&self, at: int, item: Vec<usize>) -> bool {
        &&& item@.len() == self.k
        &&& strictly_increasing(item@)
        &&& forall|i: int| 0 <= i < item@.len() ==> item@[i] < self.n
        &&& combinadic_rank(item@) == at
    }

    fn len(&self) -> (r: usize) {
        combination(self.n, self.k)
    }

    fn get(&self, at: usize) -> (r: Vec<usize>) {
        proof {
            let b = binomial(self.n as nat, self.k as nat) as int;
            let m = self.n as int;
            if self.k <= self.n {
                assert(at * m <= usize::MAX) by (nonlinear_arith)
                    requires
                        0 <= at < b,
                        m >= 0,
                        b * m <= usize::MAX,
                ;
            } else {
                lemma_binomial_zero(self.n as nat, self.k as nat);
            }
            assert(at < binomial(self.n as nat, self.k as nat) && at * (self.n as nat) <= usize::MAX);
        }
        let r = combinadics_decode(at, self.k);
        proof {
            lemma_rank_bounds_elements(r@, self.n as nat);
        }
        r
    }
}

pub proof fn lemma_binomial_zero(n: nat, k: nat)
    requires
        k > n,
    ensures
        binomial(n, k) == 0,
    decreases n,
{
    if n > 0 {
        lemma_binomial_zero((n - 1) as nat, (k - 1) as nat);
        lemma_binomial_zero((n - 1) as nat, k);
    }
}

/// Distinct positions of `KSubsets` give distinct subsets.
pub proof fn lemma_ksubsets_distinct(s: KSubsets, a: int, b: int, xa: Vec<usize>, xb: Vec<usize>)
    requires
        s.produces(a, xa),
        s.produces(b, xb),
        a != b,
    ensures
        xa@ != xb@,
{
}

/// Every ascending `k`-subset of `{0, .., n - 1}` is the element at exactly
/// one position of `KSubsets(n, k)`: the position given by its rank.
pub proof fn lemma_ksubsets_complete(s: KSubsets, xs: Seq<usize>)
    requires
        xs.len() == s.k,
        strictly_increasing(xs),
        forall|i: int| 0 <= i < xs.len() ==> xs[i] < s.n,
    ensures
        combinadic_rank(xs) < s.spec_len(),
        forall|item: Vec<usize>| #[trigger] s.produces(combinadic_rank(xs) as int, item) ==> item@ == xs,
        forall|at: int, item: Vec<usize>| #[trigger] s.produces(at, item) && item@ == xs ==> at
            == combinadic_rank(xs),
{
    lemma_rank_below_binomial(xs, s.n as nat);
    assert forall|item: Vec<usize>| #[trigger] s.produces(combinadic_rank(xs) as int, item) implies item@
        == xs by {
        lemma_rank_injective(item@, xs);
    }
}

/// Enumerates the `k`-element multisets of `{0, .., n - 1}` (elements may
/// repeat) as vectors in ascending order.
#[derive(Clone)]
pub struct KSubmultisets {
    pub n: usize,
    pub k: usize,
}

impl KSubmultisets {
    /// The space's count and every rank below it can be computed in `usize`,
    /// with the same conservative bound as `KSubsets::fits` over `n + k - 1`.
    /// `n == k == 0` is refused, as `n + k - 1` would not be a count; with
    /// `n == 0 < k` the space is empty.
    pub open spec fn fits(n: nat, k: nat) -> bool {
        &&& 1 <= n + k <= usize::MAX
        &&& KSubsets::fits((n + k - 1) as nat, k)
    }

    pub fn new(n: usize, k: usize) -> (r: Self)
        requires
            Self::fits(n as nat, k as nat),
        ensures
            r.n == n,
            r.k == k,
            r.wf(),
    {
        Self { n, k }
    }
}

impl Indexing for KSubmultisets {
    type Item = Vec<usize>;

    open spec fn wf(&self) -> bool {
        Self::fits(self.n as nat, self.k as nat)
    }

    /// Stars and bars: `binomial(n + k - 1, k)`.
    open spec fn spec_len(&self) -> nat {
        binomial((self.n + self.k - 1) as nat, self.k as nat)
    }

    /// The ascending multiset over `{0, .., n - 1}` whose spread has
    /// combinatorial rank `at`.
    open spec fn produces(&self, at: int, item: Vec<usize>) -> bool {
        &&& item@.len() == self.k
        &&& nondecreasing(item@)
        &&& forall|i: int| 0 <= i < item@.len() ==> item@[i] < self.n
        &&& combinadic_rank(spread(item@)) == at
    }

    fn len(&self) -> (r: usize) {
        combination(self.n + self.k - 1, self.k)
    }

    fn get(&self, at: usize) -> (r: Vec<usize>) {
        let ghost u = (self.n + self.k - 1) as nat;
        proof {
            let b = binomial(u, self.k as nat) as int;
            let m = u as int;
            if self.k <= u {
                assert(at * m <= usize::MAX) by (nonlinear_arith)
                    requires
                        0 <= at < b,
                        m >= 0,
                        b * m <= usize::MAX,
                ;
            } else {
                lemma_binomial_zero(u, self.k as nat);
            }
            assert(at < binomial(u, self.k as nat) && at * u <= usize::MAX);
        }
        let mut r = combinadics_decode(at, self.k);
        let ghost d = r@;
        proof {
            lemma_increasing_at_least_index(d);
            lemma_rank_bounds_elements(d, u);
        }
        let mut i: usize = 0;
        while i < r.len()
            invariant
                r@.len() == d.len(),
                0 <= i <= d.len(),
                strictly_increasing(d),
                forall|j: int| 0 <= j < d.len() ==> d[j] >= j,
                forall|j: int| 0 <= j < i ==> r@[j] == d[j] - j,
                forall|j: int| i <= j < d.len() ==> r@[j] == d[j],
            decreases d.len() - i,
        {
            let v = r[i];
            assert(v == d[i as int] && d[i as int] >= i);
            r.set(i, v - i);
            i += 1;
        }
        proof {
            assert forall|a: int, b: int| 0 <= a <= b < r@.len() implies r@[a] <= r@[b] by {
                if a < b {
                    lemma_increasing_gap(d, a, b);
                }
            }
            let top = d.len() - 1;
            assert forall|j: int| 0 <= j < r@.len() implies r@[j] < self.n by {
                lemma_increasing_gap(d, j, top);
                assert(d[top] < u);
            }
            assert(spread(r@) =~= d);
        }
        r
    }
}

proof fn lemma_increasing_gap(xs: Seq<usize>, a: int, b: int)
    requires
        strictly_increasing(xs),
        0 <= a <= b < xs.len(),
    ensures
        xs[b] - xs[a] >= b - a,
    decreases b - a,
{
    if a < b {
        lemma_increasing_gap(xs, a, b - 1);
        assert(xs[b - 1] < xs[b]);
    }
}

/// Distinct positions of `KSubmultisets` give distinct multisets.
pub proof fn lemma_ksubmultisets_distinct(
    s: KSubmultisets,
    a: int,
    b: int,
    ya: Vec<usize>,
    yb: Vec<usize>,
)
    requires
        s.produces(a, ya),
        s.produces(b, yb),
        a != b,
    ensures
        ya@ != yb@,
{
}

/// Every ascending `k`-multiset of `{0, .., n - 1}` is the element at exactly
/// one position of `KSubmultisets(n, k)`: the position given by the rank of
/// its spread.
pub proof fn lemma_ksubmultisets_complete(s: KSubmultisets, ys: Seq<usize>)
    requires
        s.wf(),
        ys.len() == s.k,
        nondecreasing(ys),
        forall|i: int| 0 <= i < ys.len() ==> ys[i] < s.n,
    ensures
        combinadic_rank(spread(ys)) < s.spec_len(),
        forall|item: Vec<usize>| #[trigger] s.produces(combinadic_rank(spread(ys)) as int, item)
            ==> item@ == ys,
        forall|at: int, item: Vec<usize>| #[trigger] s.produces(at, item) && item@ == ys ==> at
            == combinadic_rank(spread(ys)),
{
    let u = (s.n + s.k - 1) as nat;
    lemma_spread_increasing(ys, s.n as nat);
    lemma_rank_below_binomial(spread(ys), u);
    assert forall|item: Vec<usize>| #[trigger] s.produces(combinadic_rank(spread(ys)) as int, item)
        implies item@ == ys by {
        lemma_spread_increasing(item@, s.n as nat);
        lemma_rank_injective(spread(item@), spread(ys));
        assert forall|i: int| 0 <= i < ys.len() implies item@[i] == ys[i] by {
            assert(spread(item@)[i] == spread(ys)[i]);
        }
        assert(item@ =~= ys);
    }
}

/// The spread of an ascending multiset of `{0, .., n - 1}` is an ascending
/// set of `{0, .., n + len - 2}`.
pub proof fn lemma_spread_increasing(ys: Seq<usize>, n: nat)
    requires
        nondecreasing(ys),
        forall|i: int| 0 <= i < ys.len() ==> ys[i] < n,
        n + ys.len() <= usize::MAX + 1,
    ensures
        strictly_increasing(spread(ys)),
        forall|i: int| 0 <= i < ys.len() ==> spread(ys)[i] < n + ys.len() - 1,
{
    assert forall|i: int, j: int| 0 <= i < j < ys.len() implies spread(ys)[i] < spread(ys)[j] by {
        assert(ys[i] <= ys[j]);
    }
}

} // verus!
