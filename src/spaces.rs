use vstd::prelude::*;
use vstd::pervasive::cloned;
use crate::indexing::Indexing;

verus! {

/// The space of length one whose element is a copy of `self.0`.
#[derive(Clone)]
pub struct Once<T>(pub T);

impl<T: Clone> Indexing for Once<T> {
    type Item = T;

    open spec fn wf(&self) -> bool {
        true
    }

    open spec fn spec_len(&self) -> nat {
        1
    }

    open spec fn produces(&self, at: int, item: T) -> bool {
        cloned(self.0, item)
    }

    fn len(&self) -> (r: usize) {
        1
    }

    fn get(&self, _at: usize) -> (r: T) {
        self.0.clone()
    }
}

/// Pairs each element of `A` with every element of `B`, row by row: the
/// position `at` stands for `(at / len(B), at % len(B))`.
#[derive(Hash, PartialEq, Eq, Clone)]
pub struct Cross<A, B>(pub A, pub B);

impl<A: Indexing, B: Indexing> Indexing for Cross<A, B> {
    type Item = (A::Item, B::Item);

    open spec fn wf(&self) -> bool {
        &&& self.0.wf()
        &&& self.1.wf()
        &&& self.0.spec_len() * self.1.spec_len() <= usize::MAX
    }

    open spec fn spec_len(&self) -> nat {
        self.0.spec_len() * self.1.spec_len()
    }

    open spec fn produces(&self, at: int, item: (A::Item, B::Item)) -> bool {
        &&& self.0.produces(at / (self.1.spec_len() as int), item.0)
        &&& self.1.produces(at % (self.1.spec_len() as int), item.1)
    }

    fn len(&self) -> (r: usize) {
        self.0.len() * self.1.len()
    }

    fn get(&self, at: usize) -> (r: (A::Item, B::Item)) {
        let ato = self.1.len();
        proof {
            let la = self.0.spec_len() as int;
            let lb = ato as int;
            assert(lb > 0 && at as int / lb < la) by (nonlinear_arith)
                requires
                    0 <= at < la * lb,
                    la >= 0,
                    lb >= 0,
            ;
        }
        let q = at / ato;
        let r = at % ato;
        (self.0.get(q), self.1.get(r))
    }
}

impl Indexing for core::ops::Range<usize> {
    type Item = usize;

    open spec fn wf(&self) -> bool {
        true
    }

    open spec fn spec_len(&self) -> nat {
        if self.start < self.end {
            (self.end - self.start) as nat
        } else {
            0
        }
    }

    open spec fn produces(&self, at: int, item: usize) -> bool {
        item == self.start + at
    }

    fn len(&self) -> (r: usize) {
        if self.start < self.end {
            self.end - self.start
        } else {
            0
        }
    }

    fn get(&self, at: usize) -> (r: usize) {
        self.start + at
    }
}

/// All of `A`, then all of `B`: elements of `A` come out as `Ok`, those of
/// `B` as `Err`.
#[derive(Clone)]
pub struct Series<A, B>(pub A, pub B);

impl<A: Indexing, B: Indexing> Indexing for Series<A, B> {
    type Item = Result<A::Item, B::Item>;

    open spec fn wf(&self) -> bool {
        &&& self.0.wf()
        &&& self.1.wf()
        &&& self.0.spec_len() + self.1.spec_len() <= usize::MAX
    }

    open spec fn spec_len(&self) -> nat {
        self.0.spec_len() + self.1.spec_len()
    }

    open spec fn produces(&self, at: int, item: Result<A::Item, B::Item>) -> bool {
        match item {
            Ok(a) => at < self.0.spec_len() && self.0.produces(at, a),
            Err(b) => at >= self.0.spec_len() && self.1.produces(at - self.0.spec_len(), b),
        }
    }

    fn len(&self) -> (r: usize) {
        self.0.len() + self.1.len()
    }

    fn get(&self, at: usize) -> (r: Result<A::Item, B::Item>) {
        let ot = self.0.len();
        if at < ot {
            Ok(self.0.get(at))
        } else {
            Err(self.1.get(at - ot))
        }
    }
}

/// A concrete vector seen as a space; elements are handed out as copies.
#[derive(Clone)]
pub struct IndexVec<T>(pub Vec<T>);

impl<T: Clone> Indexing for IndexVec<T> {
    type Item = T;

    open spec fn wf(&self) -> bool {
        true
    }

    open spec fn spec_len(&self) -> nat {
        self.0@.len()
    }

    open spec fn produces(&self, at: int, item: T) -> bool {
        cloned(self.0@[at], item)
    }

    fn len(&self) -> (r: usize) {
        self.0.len()
    }

    fn get(&self, at: usize) -> (r: T) {
        self.0[at].clone()
    }
}

/// The first `self.0` elements of `self.1` (all of them if it is shorter).
pub struct Truncate<I>(pub usize, pub I);

impl<I: Indexing> Indexing for Truncate<I> {
    type Item = I::Item;

    open spec fn wf(&self) -> bool {
        self.1.wf()
    }

    open spec fn spec_len(&self) -> nat {
        if (self.0 as nat) < self.1.spec_len() {
            self.0 as nat
        } else {
            self.1.spec_len()
        }
    }

    open spec fn produces(&self, at: int, item: I::Item) -> bool {
        self.1.produces(at, item)
    }

    fn len(&self) -> (r: usize) {
        let inner = self.1.len();
        if self.0 < inner {
            self.0
        } else {
            inner
        }
    }

    fn get(&self, at: usize) -> (r: I::Item) {
        self.1.get(at)
    }
}

/// Each position of a product stands for the pair of its quotient and
/// remainder by the length of the second factor.
pub proof fn lemma_cross_flattening<A: Indexing, B: Indexing>(
    c: Cross<A, B>,
    at: int,
    item: (A::Item, B::Item),
)
    requires
        c.wf(),
        0 <= at < c.spec_len(),
        c.produces(at, item),
    ensures
        c.1.spec_len() > 0,
        0 <= at / (c.1.spec_len() as int) < c.0.spec_len(),
        0 <= at % (c.1.spec_len() as int) < c.1.spec_len(),
        at == (at / (c.1.spec_len() as int)) * c.1.spec_len() + at % (c.1.spec_len() as int),
        c.0.produces(at / (c.1.spec_len() as int), item.0),
        c.1.produces(at % (c.1.spec_len() as int), item.1),
{
    let la = c.0.spec_len() as int;
    let lb = (c.1.spec_len() as int);
    assert(lb > 0 && 0 <= at / lb < la && 0 <= at % lb < lb && at == (at / lb) * lb + at % lb)
        by (nonlinear_arith)
        requires
            0 <= at < la * lb,
            la >= 0,
            lb >= 0,
    ;
}

/// Over two index ranges starting at zero, position `at` of the product is
/// `(at / b, at % b)`.
pub proof fn lemma_cross_of_ranges(
    c: Cross<core::ops::Range<usize>, core::ops::Range<usize>>,
    at: int,
    item: (usize, usize),
)
    requires
        c.0.start == 0,
        c.1.start == 0,
        c.wf(),
        0 <= at < c.spec_len(),
        c.produces(at, item),
    ensures
        item.0 == at / (c.1.end as int),
        item.1 == at % (c.1.end as int),
{
}

} // verus!
