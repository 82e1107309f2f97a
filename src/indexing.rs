use vstd::prelude::*;

verus! {

/// Values that can be remembered in a hashed set.
pub trait Memorable: core::hash::Hash + Eq {

}

/// A finite sequence given by its length and an element-at-position
/// function, without a materialised backing collection.
pub trait Indexing {
    type Item;

    /// The space's parameters are consistent and its arithmetic fits in `usize`.
    spec fn wf(&self) -> bool;

    spec fn spec_len(&self) -> nat;

    /// `item` is what `get(at)` hands out.
    spec fn produces(&self, at: int, item: Self::Item) -> bool;

    fn len(&self) -> (r: usize)
        requires
            self.wf(),
        ensures
            r == self.spec_len(),
    ;

    fn get(&self, at: usize) -> (r: Self::Item)
        requires
            self.wf(),
            at < self.spec_len(),
        ensures
            self.produces(at as int, r),
    ;

    /// A cursor over the positions `0..len()`, in order, that owns the space.
    fn into_iter(self) -> (r: IndexingIter<Self>) where Self: core::marker::Sized
        requires
            self.wf(),
        ensures
            r.v == self,
            r.at == 0,
            r.len == self.spec_len(),
    {
        let len = self.len();
        IndexingIter { v: self, len, at: 0 }
    }

    /// The space whose elements are `f` applied to this one's.
    fn into_map<F, R>(self, f: F) -> (r: IndexingMap<Self, F>) where
        Self: core::marker::Sized,
        F: Fn(Self::Item) -> R,

        ensures
            r.v == self,
            r.f == f,
    {
        IndexingMap { v: self, f }
    }
}

/// The space `v` with `f` applied to each element.
#[derive(Clone)]
pub struct IndexingMap<D, F> {
    pub v: D,
    pub f: F,
}

impl<D, F, R> Indexing for IndexingMap<D, F> where D: Indexing, F: Fn(D::Item) -> R {
    type Item = R;

    open spec fn wf(&self) -> bool {
        &&& self.v.wf()
        &&& forall|at: int, x: D::Item|
            0 <= at < self.v.spec_len() && #[trigger] self.v.produces(at, x) ==> self.f.requires(
                (x,),
            )
    }

    open spec fn spec_len(&self) -> nat {
        self.v.spec_len()
    }

    open spec fn produces(&self, at: int, item: R) -> bool {
        exists|x: D::Item| #[trigger] self.v.produces(at, x) && self.f.ensures((x,), item)
    }

    fn len(&self) -> (r: usize) {
        self.v.len()
    }

    fn get(&self, at: usize) -> (r: R) {
        let x = self.v.get(at);
        (self.f)(x)
    }
}

/// A cursor that hands out the elements of `v` at positions `at..len`.
#[derive(Clone)]
pub struct IndexingIter<D> {
    pub v: D,
    pub at: usize,
    pub len: usize,
}

impl<D: Indexing> IndexingIter<D> {
    pub open spec fn wf(&self) -> bool {
        &&& self.v.wf()
        &&& self.len == self.v.spec_len()
    }

    /// The element at the cursor, or `None` once every position was visited.
    pub fn next(&mut self) -> (r: Option<D::Item>)
        requires
            old(self).wf(),
        ensures
            final(self).wf(),
            final(self).v == old(self).v,
            final(self).len == old(self).len,
            old(self).at >= old(self).len ==> r is None && *final(self) == *old(self),
            old(self).at < old(self).len ==> {
                &&& final(self).at == old(self).at + 1
                &&& r matches Some(x) && old(self).v.produces(old(self).at as int, x)
            },
    {
        if self.at >= self.len {
            None
        } else {
            let r = Some(self.v.get(self.at));
            self.at += 1;
            r
        }
    }
}

impl<D: Indexing + ?Sized> Indexing for Box<D> {
    type Item = D::Item;

    open spec fn wf(&self) -> bool {
        (**self).wf()
    }

    open spec fn spec_len(&self) -> nat {
        (**self).spec_len()
    }

    open spec fn produces(&self, at: int, item: D::Item) -> bool {
        (**self).produces(at, item)
    }

    fn len(&self) -> (r: usize) {
        (**self).len()
    }

    fn get(&self, at: usize) -> (r: D::Item) {
        (**self).get(at)
    }
}

impl<'a, D: Indexing + ?Sized> Indexing for &'a D {
    type Item = D::Item;

    open spec fn wf(&self) -> bool {
        (**self).wf()
    }

    open spec fn spec_len(&self) -> nat {
        (**self).spec_len()
    }

    open spec fn produces(&self, at: int, item: D::Item) -> bool {
        (**self).produces(at, item)
    }

    fn len(&self) -> (r: usize) {
        (**self).len()
    }

    fn get(&self, at: usize) -> (r: D::Item) {
        (**self).get(at)
    }
}

/// A cursor over a boxed space, which may be a trait object.
pub fn dyn_iter<I: Indexing + ?Sized>(v: Box<I>) -> (r: IndexingIter<Box<I>>)
    requires
        v.wf(),
    ensures
        r.v == v,
        r.at == 0,
        r.len == v.spec_len(),
        r.wf(),
{
    let len = v.len();
    IndexingIter { v, at: 0, len }
}

/// Cursors and maps that borrow the space instead of owning it.
pub trait OpsRef: Indexing {
    fn iter<'a>(&'a self) -> (r: IndexingIter<&'a Self>)
        requires
            self.wf(),
        ensures
            r.v == self,
            r.at == 0,
            r.len == self.spec_len(),
            r.wf(),
    ;

    fn map<'a, F, R>(&'a self, f: F) -> (r: IndexingMap<&'a Self, F>) where
        F: Fn(Self::Item) -> R,

        ensures
            r.v == self,
            r.f == f,
    ;
}

impl<I: Indexing + ?Sized> OpsRef for I {
    fn iter<'a>(&'a self) -> (r: IndexingIter<&'a Self>) {
        let len = self.len();
        IndexingIter { v: self, len, at: 0 }
    }

    fn map<'a, F, R>(&'a self, f: F) -> (r: IndexingMap<&'a Self, F>) where
        F: Fn(Self::Item) -> R,
     {
        IndexingMap { v: self, f }
    }
}

/// Mapping keeps the length, and each element of the mapped space is what
/// `f` returns on the element at the same position of the unmapped one.
pub proof fn lemma_map_law<D: Indexing, F: Fn(D::Item) -> R, R>(
    m: IndexingMap<D, F>,
    at: int,
    x: D::Item,
    y: R,
)
    requires
        m.wf(),
        0 <= at < m.spec_len(),
        m.v.produces(at, x),
        m.f.ensures((x,), y),
    ensures
        m.spec_len() == m.v.spec_len(),
        m.produces(at, y),
{
}

} // verus!
