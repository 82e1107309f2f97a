use vstd::prelude::*;
use vstd::set_lib::{lemma_int_range, lemma_map_size, lemma_subset_equality, set_int_range};
use crate::indexing::Indexing;
use crate::rng::{
    DefaultShuffler, Rng, Shuffler, hit_time, in_range, is_first_hit, iterate, lemma_first_hit_exists,
    lemma_iterate_add, lemma_iterate_injective, lemma_iterate_valid, lemma_orbit_returns, next_hit,
    walk_to_next_hit,
};

verus! {

/// Where position `at` of a space of `length` elements goes: the output of
/// the first in-range state after `at`'s own state.
pub open spec fn shuffled_position<S: Shuffler>(core: S, length: nat, at: int) -> int {
    core.spec_state_to_output(next_hit(core, length, core.spec_output_to_state(at as u64))) as int
}

/// A pseudorandom permutation of the space `v`, computed per position by
/// the core `r`.
#[derive(Clone)]
pub struct Shuffled<D, S> {
    pub v: D,
    pub r: S,
}

impl<D, S> Shuffled<D, S> {
    pub fn new(v: D) -> (r: Shuffled<D, S>) where D: Indexing, S: Shuffler
        requires
            v.wf(),
            S::supports_length(v.spec_len()),
        ensures
            r.v == v,
            r.r == S::spec_for_length(v.spec_len()),
            r.wf(),
    {
        let length = v.len();
        Self { v, r: S::for_length(length) }
    }
}

impl<D: Indexing, S: Shuffler> Shuffled<D, S> {
    /// The position of `v` that position `at` reads.
    pub open spec fn position(&self, at: int) -> int {
        shuffled_position(self.r, self.v.spec_len(), at)
    }
}

impl<D: Indexing, S: Shuffler> Indexing for Shuffled<D, S> {
    type Item = D::Item;

    open spec fn wf(&self) -> bool {
        &&& self.v.wf()
        &&& self.r.wf()
        &&& self.v.spec_len() <= self.r.capacity()
        &&& self.v.spec_len() <= usize::MAX
    }

    open spec fn spec_len(&self) -> nat {
        self.v.spec_len()
    }

    open spec fn produces(&self, at: int, item: D::Item) -> bool {
        self.v.produces(self.position(at), item)
    }

    fn len(&self) -> (r: usize) {
        self.v.len()
    }

    fn get(&self, at: usize) -> (r: D::Item) {
        let st = self.v.len() as u64;
        proof {
            self.r.lemma_output_round_trip(at as u64);
        }
        let start = self.r.output_to_state(at as u64);
        let n = walk_to_next_hit(&self.r, st, start);
        let p = self.r.state_to_output(n);
        self.v.get(p as usize)
    }
}

/// `d` shuffled with the default core.
pub fn light_shuffle<D>(d: D) -> (r: Shuffled<D, DefaultShuffler>) where D: Indexing
    requires
        d.wf(),
        DefaultShuffler::supports_length(d.spec_len()),
    ensures
        r.v == d,
        r.r == DefaultShuffler::spec_for_length(d.spec_len()),
        r.wf(),
{
    Shuffled::<D, DefaultShuffler>::new(d)
}

proof fn lemma_hit_of_output<S: Shuffler>(core: S, length: nat, at: int)
    requires
        core.wf(),
        length <= core.capacity(),
        length <= u64::MAX,
        0 <= at < length,
    ensures
        core.valid_state(core.spec_output_to_state(at as u64)),
        core.spec_state_to_output(core.spec_output_to_state(at as u64)) == at,
        is_first_hit(
            core,
            length,
            core.spec_output_to_state(at as u64),
            hit_time(core, length, core.spec_output_to_state(at as u64)),
        ),
        core.valid_state(next_hit(core, length, core.spec_output_to_state(at as u64))),
        0 <= shuffled_position(core, length, at) < length,
{
    let s = core.spec_output_to_state(at as u64);
    core.lemma_output_round_trip(at as u64);
    let back = lemma_orbit_returns(core, s);
    lemma_first_hit_exists(core, length, s, back);
    lemma_iterate_valid(core, s, hit_time(core, length, s));
}

/// Distinct positions below `length` are sent to distinct positions.
proof fn lemma_shuffled_position_injective<S: Shuffler>(core: S, length: nat, a: int, b: int)
    requires
        core.wf(),
        length <= core.capacity(),
        length <= u64::MAX,
        0 <= a < length,
        0 <= b < length,
        shuffled_position(core, length, a) == shuffled_position(core, length, b),
    ensures
        a == b,
{
    lemma_hit_of_output(core, length, a);
    lemma_hit_of_output(core, length, b);
    let sa = core.spec_output_to_state(a as u64);
    let sb = core.spec_output_to_state(b as u64);
    let ja = hit_time(core, length, sa);
    let jb = hit_time(core, length, sb);
    let ha = next_hit(core, length, sa);
    let hb = next_hit(core, length, sb);
    core.lemma_state_round_trip(ha);
    core.lemma_state_round_trip(hb);
    assert(ha == hb);
    if ja <= jb {
        let d = (jb - ja) as nat;
        lemma_iterate_add(core, sb, d, ja);
        lemma_iterate_valid(core, sb, d);
        lemma_iterate_injective(core, sa, iterate(core, sb, d), ja);
        if d >= 1 {
            assert(!in_range(core, length, iterate(core, sb, d)));
        }
    } else {
        let d = (ja - jb) as nat;
        lemma_iterate_add(core, sa, d, jb);
        lemma_iterate_valid(core, sa, d);
        lemma_iterate_injective(core, sb, iterate(core, sa, d), jb);
        assert(!in_range(core, length, iterate(core, sa, d)));
    }
}

/// The shuffle is a permutation: positions `0..length` are sent into
/// `0..length`, no two to the same place, and every place is reached.
pub proof fn lemma_shuffled_position_bijective<S: Shuffler>(core: S, length: nat)
    requires
        core.wf(),
        length <= core.capacity(),
        length <= u64::MAX,
    ensures
        forall|at: int| 0 <= at < length ==> 0 <= #[trigger] shuffled_position(core, length, at) < length,
        forall|a: int, b: int|
            0 <= a < length && 0 <= b < length && #[trigger] shuffled_position(core, length, a)
                == #[trigger] shuffled_position(core, length, b) ==> a == b,
        set_int_range(0, length as int).map(|at: int| shuffled_position(core, length, at))
            == set_int_range(0, length as int),
{
    assert forall|at: int| 0 <= at < length implies 0 <= #[trigger] shuffled_position(
        core,
        length,
        at,
    ) < length by {
        lemma_hit_of_output(core, length, at);
    }
    assert forall|a: int, b: int|
        0 <= a < length && 0 <= b < length && #[trigger] shuffled_position(core, length, a)
            == #[trigger] shuffled_position(core, length, b) implies a == b by {
        lemma_shuffled_position_injective(core, length, a, b);
    }
    let xs = set_int_range(0, length as int);
    let f = |at: int| shuffled_position(core, length, at);
    lemma_int_range(0, length as int);
    lemma_map_size(xs, xs.map(f), f);
    assert(xs.map(f).subset_of(xs));
    lemma_subset_equality(xs.map(f), xs);
}

/// Reading a shuffled space at `0..len()` visits every position of the
/// wrapped space exactly once.
pub proof fn lemma_shuffled_is_permutation<D: Indexing, S: Shuffler>(s: Shuffled<D, S>)
    requires
        s.wf(),
    ensures
        forall|at: int| 0 <= at < s.spec_len() ==> 0 <= #[trigger] s.position(at) < s.spec_len(),
        forall|a: int, b: int|
            0 <= a < s.spec_len() && 0 <= b < s.spec_len() && #[trigger] s.position(a)
                == #[trigger] s.position(b) ==> a == b,
        set_int_range(0, s.spec_len() as int).map(|at: int| s.position(at)) == set_int_range(
            0,
            s.spec_len() as int,
        ),
{
    lemma_shuffled_position_bijective(s.r, s.v.spec_len());
    assert(set_int_range(0, s.spec_len() as int).map(|at: int| s.position(at)) =~= set_int_range(
        0,
        s.spec_len() as int,
    ).map(|at: int| shuffled_position(s.r, s.v.spec_len(), at)));
}

/// Two shuffles built by `new` over the same space read the same positions.
pub proof fn lemma_shuffle_deterministic<D: Indexing, S: Shuffler>(
    a: Shuffled<D, S>,
    b: Shuffled<D, S>,
    at: int,
)
    requires
        a.v == b.v,
        a.r == S::spec_for_length(a.v.spec_len()),
        b.r == S::spec_for_length(b.v.spec_len()),
    ensures
        a.position(at) == b.position(at),
{
}

/// The generator and the shuffle walk the same permutation: each output of
/// the generator is the shuffled position of the output before it.
pub proof fn lemma_generator_follows_shuffle<Core: Shuffler>(rng: Rng<Core>)
    requires
        rng.wf(),
    ensures
        rng.spec_advance().spec_output() as int == shuffled_position(
            rng.core,
            rng.length as nat,
            rng.spec_output() as int,
        ),
{
    rng.core.lemma_state_round_trip(rng.state);
}

} // verus!
