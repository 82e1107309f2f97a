use vstd::prelude::*;
use vstd::set_lib::{lemma_int_range, lemma_len_subset, lemma_map_size, set_int_range};

verus! {

/// A bijective step function over a finite set of states, together with the
/// adapters between its states and zero-based outputs.
///
/// Walking the states with `next` and skipping those whose output is out of
/// range gives a permutation of any prefix `0..length` of the outputs.
pub trait Shuffler: Sized {
    /// The core's parameters are consistent.
    spec fn wf(&self) -> bool;

    /// The states that `next` walks through.
    spec fn valid_state(&self, state: u64) -> bool;

    /// Every valid state lies below this bound.
    spec fn state_bound(&self) -> nat;

    /// Outputs `0..capacity` each stand for one valid state.
    spec fn capacity(&self) -> nat;

    spec fn spec_next(&self, state: u64) -> u64;

    spec fn spec_state_to_output(&self, state: u64) -> u64;

    spec fn spec_output_to_state(&self, output: u64) -> u64;

    /// The lengths that `for_length` can size a core for.
    spec fn supports_length(length: nat) -> bool;

    spec fn spec_for_length(length: nat) -> Self;

    spec fn spec_initial_state(length: nat) -> u64;

    /// The step keeps valid states valid.
    proof fn lemma_next_valid(&self, state: u64)
        requires
            self.wf(),
            self.valid_state(state),
        ensures
            self.valid_state(self.spec_next(state)),
            state < self.state_bound(),
    ;

    /// No two valid states step to the same state.
    proof fn lemma_next_injective(&self, a: u64, b: u64)
        requires
            self.wf(),
            self.valid_state(a),
            self.valid_state(b),
            self.spec_next(a) == self.spec_next(b),
        ensures
            a == b,
    ;

    /// Each output in capacity has a valid state that maps back to it.
    proof fn lemma_output_round_trip(&self, output: u64)
        requires
            self.wf(),
            output < self.capacity(),
        ensures
            self.valid_state(self.spec_output_to_state(output)),
            self.spec_state_to_output(self.spec_output_to_state(output)) == output,
    ;

    /// A valid state is recovered from its output.
    proof fn lemma_state_round_trip(&self, state: u64)
        requires
            self.wf(),
            self.valid_state(state),
            self.spec_state_to_output(state) < self.capacity(),
        ensures
            self.spec_output_to_state(self.spec_state_to_output(state)) == state,
    ;

    /// The seed for `length` is a valid, in-range state of the core sized for it.
    proof fn lemma_initial_state(length: nat)
        requires
            Self::supports_length(length),
            length > 0,
        ensures
            Self::spec_for_length(length).valid_state(Self::spec_initial_state(length)),
            Self::spec_for_length(length).spec_state_to_output(Self::spec_initial_state(length))
                < length,
    ;

    /// A core whose cycle covers at least `l` outputs.
    fn for_length(l: usize) -> (r: Self)
        requires
            Self::supports_length(l as nat),
        ensures
            r == Self::spec_for_length(l as nat),
            r.wf(),
            r.capacity() >= l,
    ;

    fn next(&self, prev: u64) -> (r: u64)
        requires
            self.wf(),
            self.valid_state(prev),
        ensures
            r == self.spec_next(prev),
    ;

    fn state_to_output(&self, state: u64) -> (r: u64)
        requires
            self.wf(),
            self.valid_state(state),
        ensures
            r == self.spec_state_to_output(state),
    ;

    fn output_to_state(&self, output: u64) -> (r: u64)
        requires
            self.wf(),
            output < self.capacity(),
        ensures
            r == self.spec_output_to_state(output),
    ;

    /// A fixed seed for a core sized for `length`.
    fn initial_state(length: usize) -> (r: u64)
        requires
            Self::supports_length(length as nat),
            length > 0,
        ensures
            r == Self::spec_initial_state(length as nat),
    ;
}

/// The state reached from `state` after `steps` steps of the core.
pub open spec fn iterate<S: Shuffler>(core: S, state: u64, steps: nat) -> u64
    decreases steps,
{
    if steps == 0 {
        state
    } else {
        core.spec_next(iterate(core, state, (steps - 1) as nat))
    }
}

/// A state whose output lies in `0..length`.
pub open spec fn in_range<S: Shuffler>(core: S, length: nat, state: u64) -> bool {
    core.spec_state_to_output(state) < length
}

/// `steps` is the first positive number of steps from `state` that lands in range.
pub open spec fn is_first_hit<S: Shuffler>(core: S, length: nat, state: u64, steps: nat) -> bool {
    &&& steps >= 1
    &&& in_range(core, length, iterate(core, state, steps))
    &&& forall|i: nat| 1 <= i < steps ==> !in_range(core, length, #[trigger] iterate(core, state, i))
}

pub open spec fn hit_time<S: Shuffler>(core: S, length: nat, state: u64) -> nat {
    choose|steps: nat| is_first_hit(core, length, state, steps)
}

/// The first in-range state after `state`: one step of the walk that skips
/// out-of-range states.
pub open spec fn next_hit<S: Shuffler>(core: S, length: nat, state: u64) -> u64 {
    iterate(core, state, hit_time(core, length, state))
}

pub proof fn lemma_iterate_valid<S: Shuffler>(core: S, state: u64, steps: nat)
    requires
        core.wf(),
        core.valid_state(state),
    ensures
        core.valid_state(iterate(core, state, steps)),
    decreases steps,
{
    if steps > 0 {
        lemma_iterate_valid(core, state, (steps - 1) as nat);
        core.lemma_next_valid(iterate(core, state, (steps - 1) as nat));
    }
}

pub proof fn lemma_iterate_add<S: Shuffler>(core: S, state: u64, a: nat, b: nat)
    ensures
        iterate(core, iterate(core, state, a), b) == iterate(core, state, a + b),
    decreases b,
{
    if b > 0 {
        lemma_iterate_add(core, state, a, (b - 1) as nat);
        assert((a + b - 1) as nat == a + (b - 1) as nat);
    }
}

pub proof fn lemma_iterate_injective<S: Shuffler>(core: S, a: u64, b: u64, steps: nat)
    requires
        core.wf(),
        core.valid_state(a),
        core.valid_state(b),
        iterate(core, a, steps) == iterate(core, b, steps),
    ensures
        a == b,
    decreases steps,
{
    if steps > 0 {
        let k = (steps - 1) as nat;
        lemma_iterate_valid(core, a, k);
        lemma_iterate_valid(core, b, k);
        core.lemma_next_injective(iterate(core, a, k), iterate(core, b, k));
        lemma_iterate_injective(core, a, b, k);
    }
}

/// Every valid state comes back to itself within `state_bound` steps.
pub proof fn lemma_orbit_returns<S: Shuffler>(core: S, state: u64) -> (steps: nat)
    requires
        core.wf(),
        core.valid_state(state),
    ensures
        1 <= steps <= core.state_bound(),
        iterate(core, state, steps) == state,
{
    let bound = core.state_bound() as int;
    let f = |i: int| iterate(core, state, i as nat) as int;
    let xs = set_int_range(0, bound + 1);
    if exists|j: nat| 1 <= j <= bound && iterate(core, state, j) == state {
        choose|j: nat| 1 <= j <= bound && iterate(core, state, j) == state
    } else {
        assert forall|i: int, j: int| xs.contains(i) && xs.contains(j) && #[trigger] f(i) == #[trigger] f(
            j,
        ) implies i == j by {
            if i < j {
                lemma_iterate_add(core, state, (j - i) as nat, i as nat);
                lemma_iterate_valid(core, state, (j - i) as nat);
                lemma_iterate_injective(core, iterate(core, state, (j - i) as nat), state, i as nat);
            } else if j < i {
                lemma_iterate_add(core, state, (i - j) as nat, j as nat);
                lemma_iterate_valid(core, state, (i - j) as nat);
                lemma_iterate_injective(core, iterate(core, state, (i - j) as nat), state, j as nat);
            }
        }
        lemma_int_range(0, bound + 1);
        lemma_int_range(0, bound);
        lemma_map_size(xs, xs.map(f), f);
        assert forall|y: int| xs.map(f).contains(y) implies set_int_range(0, bound).contains(y) by {
            let i = choose|i: int| xs.contains(i) && f(i) == y;
            lemma_iterate_valid(core, state, i as nat);
            core.lemma_next_valid(iterate(core, state, i as nat));
        }
        // the bound + 1 states after 0..=bound steps would be distinct, yet all below bound
        lemma_len_subset(xs.map(f), set_int_range(0, bound));
        arbitrary()
    }
}

/// Some first hit exists no later than any hit.
pub proof fn lemma_first_hit_exists<S: Shuffler>(core: S, length: nat, state: u64, steps: nat)
    requires
        steps >= 1,
        in_range(core, length, iterate(core, state, steps)),
    ensures
        is_first_hit(core, length, state, hit_time(core, length, state)),
        hit_time(core, length, state) <= steps,
    decreases steps,
{
    if exists|i: nat| 1 <= i < steps && in_range(core, length, #[trigger] iterate(core, state, i)) {
        let i = choose|i: nat| 1 <= i < steps && in_range(core, length, #[trigger] iterate(core, state, i));
        lemma_first_hit_exists(core, length, state, i);
    } else {
        assert(is_first_hit(core, length, state, steps));
        lemma_first_hit_unique(core, length, state, steps, hit_time(core, length, state));
    }
}

pub proof fn lemma_first_hit_unique<S: Shuffler>(core: S, length: nat, state: u64, a: nat, b: nat)
    requires
        is_first_hit(core, length, state, a),
        is_first_hit(core, length, state, b),
    ensures
        a == b,
{
    if a < b {
        assert(!in_range(core, length, iterate(core, state, a)));
    } else if b < a {
        assert(!in_range(core, length, iterate(core, state, b)));
    }
}

/// Steps from `start` until the state's output is below `length`.
pub fn walk_to_next_hit<S: Shuffler>(core: &S, length: u64, start: u64) -> (r: u64)
    requires
        core.wf(),
        core.valid_state(start),
        in_range(*core, length as nat, start),
    ensures
        r == next_hit(*core, length as nat, start),
        core.valid_state(r),
        in_range(*core, length as nat, r),
{
    let ghost back = lemma_orbit_returns(*core, start);
    let ghost mut k: nat = 1;
    let mut state = core.next(start);
    proof {
        core.lemma_next_valid(start);
        assert(iterate(*core, start, 1) == core.spec_next(iterate(*core, start, 0)));
    }
    while core.state_to_output(state) >= length
        invariant
            core.wf(),
            core.valid_state(state),
            in_range(*core, length as nat, start),
            iterate(*core, start, back) == start,
            1 <= k <= back,
            state == iterate(*core, start, k),
            forall|i: nat| 1 <= i < k ==> !in_range(*core, length as nat, #[trigger] iterate(*core, start, i)),
        decreases back - k,
    {
        proof {
            core.lemma_next_valid(state);
        }
        state = core.next(state);
        proof {
            k = k + 1;
        }
    }
    proof {
        assert(is_first_hit(*core, length as nat, start, k));
        lemma_first_hit_exists(*core, length as nat, start, k);
        lemma_first_hit_unique(*core, length as nat, start, k, hit_time(*core, length as nat, start));
    }
    state
}

/// One feedback tap mask per register width `1..=32`, each giving a
/// (near-)maximal cycle for a Galois-style register of that width.
pub const TAPS: [u32; 32] = [
    0x1, 0x3, 0x3, 0x3, 0x5, 0x3, 0x3, 0x1d, 0x11, 0x9, 0x5, 0x53, 0x1b, 0x2b, 0x3, 0x2d, 0x9,
    0x81, 0x27, 0x9, 0x5, 0x3, 0x21, 0x1b, 0x9, 0x47, 0x27, 0x9, 0x5, 0x53, 0x9, 0xc5,
];

/// Reduced modulo the length to pick the seed, so that a given length
/// always starts from the same state.
pub const SPECIAL_SALT: u64 = 0x2ab18f32a337;

/// Largest length a register of at most 32 bits can be sized for.
pub const MAX_LENGTH: u64 = 0xFFFF_FFFF;

/// Parameters of a linear feedback shift register: the tap mask and the
/// register width in bits. The state is kept elsewhere.
#[derive(Clone, Copy)]
pub struct LFSRF {
    pub taps: u32,
    pub size: u32,
}

pub type DefaultShuffler = LFSRF;

/// The low bit of the number of ones in `x`.
pub open spec fn parity(x: u64) -> u64
    decreases x,
{
    if x == 0 {
        0
    } else {
        (x % 2) ^ parity(x / 2)
    }
}

/// The smallest width from `w` on (up to 32) whose register has more than
/// `length` states, zero included.
pub open spec fn width_from(length: nat, w: u64) -> u64
    decreases 32 - w,
{
    if w >= 32 || length < (1u64 << w) as nat {
        w
    } else {
        width_from(length, (w + 1) as u64)
    }
}

/// The register width chosen for `length`: the smallest `w >= 1` with
/// `2^w - 1 >= length`.
pub open spec fn register_width(length: nat) -> u64 {
    width_from(length, 1)
}

pub open spec fn lfsr_step(state: u64, taps: u32, size: u32) -> u64 {
    (parity(state & (taps as u64)) << ((size - 1) as u64)) | (state >> 1)
}

pub proof fn lemma_parity_bit(x: u64)
    ensures
        parity(x) <= 1,
    decreases x,
{
    if x != 0 {
        lemma_parity_bit(x / 2);
        let b = x % 2;
        let q = parity(x / 2);
        assert(b ^ q <= 1) by (bit_vector)
            requires
                b <= 1,
                q <= 1,
        ;
    }
}

pub proof fn lemma_parity_one()
    ensures
        parity(1) == 1,
{
    reveal_with_fuel(parity, 2);
    assert((1u64 % 2) ^ 0u64 == 1) by (bit_vector);
}

/// Flipping the low bit flips the parity.
pub proof fn lemma_parity_flip(x: u64)
    ensures
        parity(x ^ 1) != parity(x),
{
    let y = x ^ 1;
    lemma_parity_one();
    if x == 0 {
        assert(y == 1) by (bit_vector)
            requires
                x == 0,
                y == x ^ 1,
        ;
    } else if x == 1 {
        assert(y == 0) by (bit_vector)
            requires
                x == 1,
                y == x ^ 1,
        ;
    } else {
        assert(y != 0 && y / 2 == x / 2 && y % 2 != x % 2 && y % 2 <= 1 && x % 2 <= 1) by (bit_vector)
            requires
                x != 0,
                x != 1,
                y == x ^ 1,
        ;
        lemma_parity_bit(x / 2);
        let b = x % 2;
        let c = y % 2;
        let q = parity(x / 2);
        assert((c ^ q) != (b ^ q)) by (bit_vector)
            requires
                b <= 1,
                c <= 1,
                b != c,
                q <= 1,
        ;
        assert(parity(y) == c ^ q);
        assert(parity(x) == b ^ q);
    }
}

/// Computes `parity(v)` one bit at a time.
fn parity_of(v: u64) -> (r: u64)
    ensures
        r == parity(v),
        r <= 1,
{
    let mut x = v;
    let mut p: u64 = 0;
    proof {
        let q = parity(v);
        assert(0u64 ^ q == q) by (bit_vector);
    }
    while x != 0
        invariant
            p <= 1,
            (p ^ parity(x)) == parity(v),
        decreases x,
    {
        let ghost q = parity(x / 2);
        proof {
            lemma_parity_bit(x / 2);
        }
        assert((p ^ (x & 1)) ^ q == p ^ ((x % 2) ^ q) && (x & 1) <= 1 && x >> 1 == x / 2
            && (p ^ (x & 1)) <= 1) by (bit_vector)
            requires
                p <= 1,
        ;
        p = p ^ (x & 1);
        x = x >> 1;
    }
    proof {
        lemma_parity_bit(v);
        assert(p ^ 0 == p) by (bit_vector);
    }
    p
}

pub proof fn lemma_width_from(length: nat, w: u64)
    requires
        1 <= w <= 32,
        length <= MAX_LENGTH,
    ensures
        w <= width_from(length, w) <= 32,
        length < (1u64 << width_from(length, w)) as nat,
        width_from(length, w) == w || (1u64 << (width_from(length, w) - 1) as u64) as nat <= length,
    decreases 32 - w,
{
    if w >= 32 {
        assert((1u64 << 32u64) == 0x1_0000_0000) by (bit_vector);
    } else if length < (1u64 << w) as nat {
    } else {
        lemma_width_from(length, (w + 1) as u64);
    }
}

impl LFSRF {
    /// Number of bit patterns of the register, zero included.
    pub open spec fn states(&self) -> u64 {
        1u64 << (self.size as u64)
    }

    pub proof fn lemma_states(&self)
        requires
            1 <= self.size <= 32,
        ensures
            2 <= self.states() <= 0x1_0000_0000,
    {
        let n = self.size as u64;
        assert(2 <= (1u64 << n) <= 0x1_0000_0000) by (bit_vector)
            requires
                1 <= n <= 32,
        ;
    }
}

impl Shuffler for LFSRF {
    open spec fn wf(&self) -> bool {
        &&& 1 <= self.size <= 32
        &&& self.taps % 2 == 1
    }

    /// The register never holds zero.
    open spec fn valid_state(&self, state: u64) -> bool {
        0 < state < self.states()
    }

    open spec fn state_bound(&self) -> nat {
        self.states() as nat
    }

    open spec fn capacity(&self) -> nat {
        (self.states() - 1) as nat
    }

    open spec fn spec_next(&self, state: u64) -> u64 {
        lfsr_step(state, self.taps, self.size)
    }

    open spec fn spec_state_to_output(&self, state: u64) -> u64 {
        (state - 1) as u64
    }

    open spec fn spec_output_to_state(&self, output: u64) -> u64 {
        (output + 1) as u64
    }

    open spec fn supports_length(length: nat) -> bool {
        length <= MAX_LENGTH
    }

    open spec fn spec_for_length(length: nat) -> Self {
        LFSRF { taps: TAPS[register_width(length) - 1], size: register_width(length) as u32 }
    }

    open spec fn spec_initial_state(length: nat) -> u64 {
        let s = (SPECIAL_SALT as nat) % length;
        if s == 0 {
            1
        } else {
            s as u64
        }
    }

    proof fn lemma_next_valid(&self, state: u64) {
        let n = self.size as u64;
        let m = (self.size - 1) as u64;
        let t = self.taps as u64;
        let p = parity(state & t);
        lemma_parity_bit(state & t);
        if state == 1 {
            assert(1u64 & t == 1) by (bit_vector)
                requires
                    t % 2 == 1,
            ;
            lemma_parity_one();
        }
        assert(0 < ((p << m) | (state >> 1)) < (1u64 << n)) by (bit_vector)
            requires
                1 <= n <= 32,
                m + 1 == n,
                0 < state < (1u64 << n),
                p <= 1,
                state == 1 ==> p == 1,
        ;
    }

    proof fn lemma_next_injective(&self, a: u64, b: u64) {
        let n = self.size as u64;
        let m = (self.size - 1) as u64;
        let t = self.taps as u64;
        let pa = parity(a & t);
        let pb = parity(b & t);
        lemma_parity_bit(a & t);
        lemma_parity_bit(b & t);
        assert(pa == pb && (a == b || a == b ^ 1)) by (bit_vector)
            requires
                1 <= n <= 32,
                m + 1 == n,
                a < (1u64 << n),
                b < (1u64 << n),
                pa <= 1,
                pb <= 1,
                (pa << m) | (a >> 1) == (pb << m) | (b >> 1),
        ;
        if a != b {
            assert(a & t == (b & t) ^ 1) by (bit_vector)
                requires
                    a == b ^ 1,
                    t % 2 == 1,
            ;
            lemma_parity_flip(b & t);
        }
    }

    proof fn lemma_output_round_trip(&self, output: u64) {
        self.lemma_states();
    }

    proof fn lemma_state_round_trip(&self, state: u64) {
    }

    proof fn lemma_initial_state(length: nat) {
        let w = register_width(length);
        lemma_width_from(length, 1);
        assert((1u64 << w) >= 2) by (bit_vector)
            requires
                1 <= w <= 32,
        ;
    }

    fn for_length(l: usize) -> (r: Self) {
        let mut w: u64 = 1;
        proof {
            lemma_width_from(l as nat, 1);
        }
        while (1u64 << w) <= l as u64
            invariant
                1 <= w <= 32,
                l <= MAX_LENGTH,
                width_from(l as nat, w) == register_width(l as nat),
            decreases 32 - w,
        {
            assert(w < 32) by {
                assert(w == 32 ==> (1u64 << w) == 0x1_0000_0000) by (bit_vector);
            }
            w = w + 1;
        }
        proof {
            lemma_width_from(l as nat, 1);
            assert(TAPS[w - 1] % 2 == 1);
        }
        LFSRF { taps: TAPS[(w - 1) as usize], size: w as u32 }
    }

    fn next(&self, prev: u64) -> (r: u64) {
        let p = parity_of(prev & (self.taps as u64));
        (p << ((self.size - 1) as u64)) | (prev >> 1)
    }

    fn state_to_output(&self, state: u64) -> (r: u64) {
        state - 1
    }

    fn output_to_state(&self, output: u64) -> (r: u64) {
        proof {
            self.lemma_states();
        }
        output + 1
    }

    fn initial_state(length: usize) -> (r: u64) {
        let mut state = SPECIAL_SALT % (length as u64);
        if state == 0 {
            state = 1;
        }
        state
    }
}

/// A pseudorandom generator that walks a core's cycle and skips the states
/// whose output is not below `length`: its outputs, taken `length` at a
/// time, run through a permutation of `0..length`.
#[derive(Clone, Copy)]
pub struct Rng<Core> {
    pub core: Core,
    pub length: u64,
    pub state: u64,
}

impl<Core: Shuffler> Rng<Core> {
    pub open spec fn wf(&self) -> bool {
        &&& self.core.wf()
        &&& self.length <= self.core.capacity()
        &&& self.core.valid_state(self.state)
        &&& in_range(self.core, self.length as nat, self.state)
    }

    pub open spec fn spec_for_length(length: nat) -> Self {
        Rng {
            core: Core::spec_for_length(length),
            length: length as u64,
            state: Core::spec_initial_state(length),
        }
    }

    /// What the next call of `next` returns.
    pub open spec fn spec_output(&self) -> u64 {
        self.core.spec_state_to_output(self.state)
    }

    /// The generator after one call of `next`.
    pub open spec fn spec_advance(&self) -> Self {
        Rng {
            core: self.core,
            length: self.length,
            state: next_hit(self.core, self.length as nat, self.state),
        }
    }

    /// The outputs of `count` successive calls of `next`.
    pub open spec fn outputs(&self, count: nat) -> Seq<u64>
        decreases count,
    {
        if count == 0 {
            Seq::empty()
        } else {
            seq![self.spec_output()] + self.spec_advance().outputs((count - 1) as nat)
        }
    }

    /// A generator over `0..length`; `length` must be positive, as the seed
    /// is taken modulo it.
    pub fn for_length(length: usize) -> (r: Self)
        requires
            Core::supports_length(length as nat),
            length > 0,
        ensures
            r == Self::spec_for_length(length as nat),
            r.wf(),
    {
        proof {
            Core::lemma_initial_state(length as nat);
        }
        Rng {
            core: Core::for_length(length),
            length: length as u64,
            state: Core::initial_state(length),
        }
    }

    pub fn next(&mut self) -> (r: u64)
        requires
            old(self).wf(),
        ensures
            r == old(self).spec_output(),
            *final(self) == old(self).spec_advance(),
            final(self).wf(),
    {
        let r = self.state;
        self.state = walk_to_next_hit(&self.core, self.length, self.state);
        self.core.state_to_output(r)
    }
}

/// Generators built for the same length yield the same outputs: the seed is
/// fixed, not drawn.
pub proof fn lemma_for_length_deterministic<Core: Shuffler>(
    a: Rng<Core>,
    b: Rng<Core>,
    length: nat,
    count: nat,
)
    requires
        a == Rng::<Core>::spec_for_length(length),
        b == Rng::<Core>::spec_for_length(length),
    ensures
        a.outputs(count) == b.outputs(count),
{
}

} // verus!
