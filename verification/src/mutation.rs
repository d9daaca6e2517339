//! Mutation operators: point mutation, crossover (single-point, uniform) and autofill.
//!
//! A random decision "a draw in [0, 1) falls below a rate" is taken on the generator's 32-bit
//! draw `d` as `d < threshold`, where the threshold is the number of 32-bit draws whose
//! fraction of `u32::MAX` passes the rate; a threshold above `u32::MAX` passes every draw.
use vstd::prelude::*;
use crate::population::{
    is_ternary, is_ternary_seq, state_after, ternary_draw, u32_draw, u64_draw, xorshift, SimpleRng,
};

verus! {

/// How crossover is performed.
#[derive(Clone, Copy, Debug, PartialEq, Eq, Structural)]
pub enum CrossoverMethod {
    /// Single-point crossover at a random cut.
    SinglePoint,
    /// Uniform crossover: each position taken from either parent at random.
    Uniform,
}

/// The threshold of one half: a 32-bit draw falls below one half of `u32::MAX` exactly when
/// it is below 2^31.
pub const HALF_DRAW: u64 = 0x8000_0000;

/// A draw passes a threshold when it is below it.
pub open spec fn passes(draw: u32, threshold: u64) -> bool {
    (draw as u64) < threshold
}

/// The value a point mutation writes over `current`, given the draw that picks it:
/// the draw's parity chooses between the two ternary values other than `current`.
pub open spec fn flip(current: u8, draw: u32) -> u8 {
    let nv = (draw % 2) as u8;
    let v = if nv < current {
        nv
    } else {
        (nv + 1) as u8
    };
    if v > 2 {
        0
    } else {
        v
    }
}

/// A flipped value is ternary and differs from the value it replaces.
pub proof fn lemma_flip(current: u8, draw: u32)
    ensures
        is_ternary(flip(current, draw)),
        flip(current, draw) != current,
{
}

/// Draws of different parity flip a ternary value to different values, so the two parities
/// pick the two other ternary values, one each.
pub proof fn lemma_flip_picks_each_other_value(current: u8, d1: u32, d2: u32)
    requires
        is_ternary(current),
        d1 % 2 != d2 % 2,
    ensures
        flip(current, d1) != flip(current, d2),
{
}

/// Which other value a flip picks: an even draw picks the smaller of the two ternary values
/// other than `current`, an odd draw the larger.
pub proof fn lemma_flip_by_parity(current: u8, draw: u32)
    requires
        is_ternary(current),
    ensures
        draw % 2 == 0 ==> flip(current, draw) == (if current == 0 { 1u8 } else { 0u8 }),
        draw % 2 == 1 ==> flip(current, draw) == (if current == 2 { 1u8 } else { 2u8 }),
{
}

/// Mutation settings as draw thresholds (see the module documentation).
#[derive(Clone, Copy, Debug)]
pub struct MutationPlan {
    /// Threshold of the per-position point mutation decision.
    pub point_threshold: u64,
    /// Crossover method.
    pub crossover: CrossoverMethod,
    /// Threshold of the decision to cross over at all; a draw that does not pass it
    /// leaves the children as copies of the parents.
    pub crossover_threshold: u64,
}

/// Point mutation of the first `n` positions of `s` from generator state `st`: per position
/// one draw decides, and a passing decision is followed by one draw that picks the new value.
/// Returns the strategy and the generator state after.
pub open spec fn point_mutated(s: Seq<u8>, n: nat, st: u64, threshold: u64) -> (Seq<u8>, u64)
    decreases n,
{
    if n == 0 {
        (s, st)
    } else {
        let (t, st1) = point_mutated(s, (n - 1) as nat, st, threshold);
        if passes(u32_draw(st1), threshold) {
            (t.update(n - 1, flip(s[n - 1], u32_draw(xorshift(st1)))), xorshift(xorshift(st1)))
        } else {
            (t, xorshift(st1))
        }
    }
}

/// Point mutation keeps the length, touches only the first `n` positions, and a touched
/// position takes a ternary value other than the one it had. No position changes under a
/// zero threshold, and every one of the first `n` changes under a threshold above `u32::MAX`.
pub proof fn lemma_point_mutated(s: Seq<u8>, n: nat, st: u64, threshold: u64)
    requires
        n <= s.len(),
    ensures
        point_mutated(s, n, st, threshold).0.len() == s.len(),
        forall|j: int|
            n <= j < s.len() ==> #[trigger] point_mutated(s, n, st, threshold).0[j] == s[j],
        forall|j: int|
            0 <= j < s.len() ==> #[trigger] point_mutated(s, n, st, threshold).0[j] == s[j] || (
            is_ternary(point_mutated(s, n, st, threshold).0[j]) && point_mutated(
                s,
                n,
                st,
                threshold,
            ).0[j] != s[j]),
        threshold == 0 ==> point_mutated(s, n, st, threshold).0 == s,
        threshold > u32::MAX ==> forall|j: int|
            0 <= j < n ==> #[trigger] point_mutated(s, n, st, threshold).0[j] != s[j],
    decreases n,
{
    if n > 0 {
        lemma_point_mutated(s, (n - 1) as nat, st, threshold);
        let (t, st1) = point_mutated(s, (n - 1) as nat, st, threshold);
        lemma_flip(s[n - 1], u32_draw(xorshift(st1)));
        if threshold == 0 {
            assert(!passes(u32_draw(st1), threshold));
        }
    }
}

impl MutationPlan {
    /// Point mutation: each position, in order, mutates when a draw passes the point threshold,
    /// and then takes the value picked by the next draw (see `flip`).
    pub fn point_mutate(&self, strategy: &mut Vec<u8>, rng: &mut SimpleRng)
        ensures
            (final(strategy)@, final(rng)@) == point_mutated(
                old(strategy)@,
                old(strategy)@.len(),
                old(rng)@,
                self.point_threshold,
            ),
            final(strategy)@.len() == old(strategy)@.len(),
            forall|j: int|
                0 <= j < old(strategy)@.len() ==> #[trigger] final(strategy)@[j] == old(strategy)@[j]
                    || (is_ternary(final(strategy)@[j]) && final(strategy)@[j] != old(strategy)@[j]),
            self.point_threshold == 0 ==> final(strategy)@ == old(strategy)@,
            self.point_threshold > u32::MAX ==> forall|j: int|
                0 <= j < old(strategy)@.len() ==> #[trigger] final(strategy)@[j] != old(
                    strategy,
                )@[j],
            is_ternary_seq(old(strategy)@) ==> is_ternary_seq(final(strategy)@),
            old(rng)@ != 0 ==> final(rng)@ != 0,
    {
        let ghost s0 = strategy@;
        let ghost r0 = rng@;
        let len = strategy.len();
        let mut i: usize = 0;
        while i < len
            invariant
                i <= len,
                len == s0.len(),
                (strategy@, rng@) == point_mutated(s0, i as nat, r0, self.point_threshold),
                r0 != 0 ==> rng@ != 0,
            decreases len - i,
        {
            proof {
                lemma_point_mutated(s0, i as nat, r0, self.point_threshold);
            }
            let d = rng.next_u32();
            if (d as u64) < self.point_threshold {
                let pick = rng.next_u32();
                let current = strategy[i];
                let nv = (pick % 2) as u8;
                let mut v = if nv < current { nv } else { nv + 1 };
                if v > 2 {
                    v = 0;
                }
                strategy[i] = v;
            }
            i = i + 1;
        }
        proof {
            lemma_point_mutated(s0, len as nat, r0, self.point_threshold);
            if is_ternary_seq(s0) {
                assert forall|j: int| 0 <= j < strategy@.len() implies is_ternary(
                    #[trigger] strategy@[j],
                ) by {
                    assert(strategy@[j] == s0[j] || is_ternary(strategy@[j]));
                }
            }
        }
    }
}


/// The cut of a single-point crossover of strategies of length `len`, from the 64-bit draw `r`:
/// the draw modulo the length, but at least 1.
pub open spec fn cut_point(r: u64, len: nat) -> int {
    let c = (r as usize) as int % (len as int);
    if c < 1 {
        1
    } else {
        c
    }
}

/// The children of two parents that exchange the positions from `from` up to the first
/// parent's length.
pub open spec fn swap_tails(a: Seq<u8>, b: Seq<u8>, from: int) -> (Seq<u8>, Seq<u8>) {
    (
        Seq::new(a.len(), |i: int| if from <= i { b[i] } else { a[i] }),
        Seq::new(b.len(), |i: int| if from <= i < a.len() { a[i] } else { b[i] }),
    )
}

/// Uniform crossover of the first `n` positions: per position one draw decides whether the
/// children exchange that position (the draw falls below one half).
pub open spec fn uniform_crossed(a: Seq<u8>, b: Seq<u8>, n: nat, st: u64) -> (Seq<u8>, Seq<u8>, u64)
    decreases n,
{
    if n == 0 {
        (a, b, st)
    } else {
        let (x, y, st1) = uniform_crossed(a, b, (n - 1) as nat, st);
        if passes(u32_draw(st1), HALF_DRAW) {
            (x.update(n - 1, b[n - 1]), y.update(n - 1, a[n - 1]), xorshift(st1))
        } else {
            (x, y, xorshift(st1))
        }
    }
}

/// Crossover of parents `a` and `b` from generator state `st`: one draw decides whether to
/// cross at all; single-point crossover then takes one 64-bit draw for the cut (none for an
/// empty first parent), uniform crossover one draw per position of the first parent.
/// Returns both children and the generator state after.
pub open spec fn crossed(plan: MutationPlan, a: Seq<u8>, b: Seq<u8>, st: u64) -> (Seq<u8>, Seq<u8>, u64) {
    let st1 = xorshift(st);
    if !passes(u32_draw(st), plan.crossover_threshold) {
        (a, b, st1)
    } else {
        match plan.crossover {
            CrossoverMethod::SinglePoint => {
                if a.len() == 0 {
                    (a, b, st1)
                } else {
                    let (x, y) = swap_tails(a, b, cut_point(u64_draw(st1), a.len()));
                    (x, y, xorshift(xorshift(st1)))
                }
            },
            CrossoverMethod::Uniform => uniform_crossed(a, b, a.len(), st1),
        }
    }
}

/// Whether a crossover of parents of lengths `a_len` and `b_len` from generator state `st` reads
/// only positions that exist: always when no crossover happens or the first parent is not the
/// longer; otherwise single-point crossover of a first parent longer than 1 reads past the end of
/// the second, and uniform crossover does so when a position past the end of the second parent
/// draws an exchange.
pub open spec fn crossover_fits(plan: MutationPlan, a_len: nat, b_len: nat, st: u64) -> bool {
    ||| !passes(u32_draw(st), plan.crossover_threshold)
    ||| a_len <= b_len
    ||| match plan.crossover {
        CrossoverMethod::SinglePoint => a_len <= 1,
        CrossoverMethod::Uniform => forall|i: int|
            b_len <= i < a_len ==> !passes(
                #[trigger] u32_draw(state_after(xorshift(st), i as nat)),
                HALF_DRAW,
            ),
    }
}

/// The children of a crossover exchange material position by position: each child keeps its
/// parent's length, at every position both parents have the children hold the parents' values
/// either as they were or exchanged, and past the end of one parent the other's child keeps
/// its parent's values.
pub open spec fn conserves(a: Seq<u8>, b: Seq<u8>, x: Seq<u8>, y: Seq<u8>) -> bool {
    &&& x.len() == a.len()
    &&& y.len() == b.len()
    &&& forall|i: int|
        0 <= i < a.len() && i < b.len() ==> (#[trigger] x[i] == a[i] && y[i] == b[i]) || (x[i]
            == b[i] && y[i] == a[i])
    &&& forall|i: int| a.len() <= i < b.len() ==> #[trigger] y[i] == b[i]
    &&& forall|i: int| b.len() <= i < a.len() ==> #[trigger] x[i] == a[i]
}

proof fn lemma_uniform_conserves(a: Seq<u8>, b: Seq<u8>, n: nat, st: u64)
    requires
        n <= a.len(),
        forall|i: int|
            b.len() <= i < n ==> !passes(#[trigger] u32_draw(state_after(st, i as nat)), HALF_DRAW),
    ensures
        uniform_crossed(a, b, n, st).2 == state_after(st, n),
        conserves(a, b, uniform_crossed(a, b, n, st).0, uniform_crossed(a, b, n, st).1),
        forall|i: int|
            n <= i < a.len() ==> #[trigger] uniform_crossed(a, b, n, st).0[i] == a[i],
        forall|i: int|
            n <= i < b.len() ==> #[trigger] uniform_crossed(a, b, n, st).1[i] == b[i],
    decreases n,
{
    if n > 0 {
        lemma_uniform_conserves(a, b, (n - 1) as nat, st);
        let st1 = uniform_crossed(a, b, (n - 1) as nat, st).2;
        assert(state_after(st, n) == xorshift(state_after(st, (n - 1) as nat)));
        if n - 1 >= b.len() {
            assert(!passes(u32_draw(state_after(st, (n - 1) as nat)), HALF_DRAW));
        }
    }
}

/// Crossover conserves the parents' material position by position (see `conserves`), so
/// ternary parents have ternary children.
pub proof fn lemma_crossed_conserves(plan: MutationPlan, a: Seq<u8>, b: Seq<u8>, st: u64)
    requires
        crossover_fits(plan, a.len(), b.len(), st),
    ensures
        conserves(a, b, crossed(plan, a, b, st).0, crossed(plan, a, b, st).1),
        is_ternary_seq(a) && is_ternary_seq(b) ==> is_ternary_seq(crossed(plan, a, b, st).0)
            && is_ternary_seq(crossed(plan, a, b, st).1),
{
    let (x, y, st2) = crossed(plan, a, b, st);
    if passes(u32_draw(st), plan.crossover_threshold) {
        match plan.crossover {
            CrossoverMethod::SinglePoint => {
                if a.len() > 0 {
                    let c = cut_point(u64_draw(xorshift(st)), a.len());
                    if a.len() > b.len() {
                        assert(c >= a.len());
                    }
                }
            },
            CrossoverMethod::Uniform => {
                lemma_uniform_conserves(a, b, a.len(), xorshift(st));
            },
        }
    }
    if is_ternary_seq(a) && is_ternary_seq(b) {
        assert forall|i: int| 0 <= i < x.len() implies is_ternary(#[trigger] x[i]) by {
            if i < b.len() {
                assert((x[i] == a[i] && y[i] == b[i]) || (x[i] == b[i] && y[i] == a[i]));
            } else {
                assert(x[i] == a[i]);
            }
        }
        assert forall|i: int| 0 <= i < y.len() implies is_ternary(#[trigger] y[i]) by {
            if i < a.len() {
                assert((x[i] == a[i] && y[i] == b[i]) || (x[i] == b[i] && y[i] == a[i]));
            } else {
                assert(y[i] == b[i]);
            }
        }
    }
}

/// A crossover whose first draw does not pass the crossover threshold leaves both children
/// copies of their parents and takes that one draw only.
pub proof fn lemma_no_crossover_copies(plan: MutationPlan, a: Seq<u8>, b: Seq<u8>, st: u64)
    requires
        (u32_draw(st) as u64) >= plan.crossover_threshold,
    ensures
        crossed(plan, a, b, st) == (a, b, xorshift(st)),
{
}

/// Single-point crossover swaps whole tails: for the cut `c`, the 64-bit draw after the first
/// draw taken modulo the first parent's length but at least 1, the first child is the first
/// parent up to `c` followed by the second parent from `c` to the first parent's length, and
/// the second child is the second parent with that same stretch taken from the first parent.
/// The cut lies inside the strategy whenever it has at least two values.
pub proof fn lemma_single_point_swaps_tails(plan: MutationPlan, a: Seq<u8>, b: Seq<u8>, st: u64)
    requires
        plan.crossover == CrossoverMethod::SinglePoint,
        (u32_draw(st) as u64) < plan.crossover_threshold,
        0 < a.len() <= b.len(),
    ensures
        ({
            let m = (u64_draw(xorshift(st)) as usize) as int % (a.len() as int);
            let c = if m >= 1 { m } else { 1 };
            &&& 1 <= c <= a.len()
            &&& a.len() >= 2 ==> c < a.len()
            &&& crossed(plan, a, b, st).0 == a.subrange(0, c) + b.subrange(c, a.len() as int)
            &&& crossed(plan, a, b, st).1 == b.subrange(0, c) + a.subrange(c, a.len() as int)
                + b.subrange(a.len() as int, b.len() as int)
            &&& crossed(plan, a, b, st).2 == xorshift(xorshift(xorshift(st)))
        }),
{
    let m = (u64_draw(xorshift(st)) as usize) as int % (a.len() as int);
    let c = if m >= 1 { m } else { 1 };
    let (x, y, st2) = crossed(plan, a, b, st);
    assert(c == cut_point(u64_draw(xorshift(st)), a.len()));
    assert(x =~= a.subrange(0, c) + b.subrange(c, a.len() as int));
    assert(y =~= b.subrange(0, c) + a.subrange(c, a.len() as int) + b.subrange(a.len() as int, b.len() as int));
}

/// Uniform crossover decides each position on its own draw: position `i` of the first parent
/// takes the `i`-th draw after the first one, and the children exchange their values there
/// exactly when that draw is below 2^31 (a fraction of `u32::MAX` below one half).
pub proof fn lemma_uniform_exchanges_by_draw(plan: MutationPlan, a: Seq<u8>, b: Seq<u8>, st: u64)
    requires
        plan.crossover == CrossoverMethod::Uniform,
        (u32_draw(st) as u64) < plan.crossover_threshold,
        a.len() <= b.len(),
    ensures
        crossed(plan, a, b, st).0.len() == a.len(),
        crossed(plan, a, b, st).1.len() == b.len(),
        forall|i: int| 0 <= i < a.len() ==> {
            let swap = (#[trigger] u32_draw(state_after(xorshift(st), i as nat)) as u64) < 0x8000_0000;
            &&& crossed(plan, a, b, st).0[i] == (if swap { b[i] } else { a[i] })
            &&& crossed(plan, a, b, st).1[i] == (if swap { a[i] } else { b[i] })
        },
        forall|i: int| a.len() <= i < b.len() ==> #[trigger] crossed(plan, a, b, st).1[i] == b[i],
        crossed(plan, a, b, st).2 == state_after(xorshift(st), a.len()),
{
    lemma_uniform_positions(a, b, a.len(), xorshift(st));
}

proof fn lemma_uniform_positions(a: Seq<u8>, b: Seq<u8>, n: nat, st: u64)
    requires
        n <= a.len() <= b.len(),
    ensures
        uniform_crossed(a, b, n, st).0.len() == a.len(),
        uniform_crossed(a, b, n, st).1.len() == b.len(),
        uniform_crossed(a, b, n, st).2 == state_after(st, n),
        forall|i: int| 0 <= i < n ==> {
            let swap = (#[trigger] u32_draw(state_after(st, i as nat)) as u64) < 0x8000_0000;
            &&& uniform_crossed(a, b, n, st).0[i] == (if swap { b[i] } else { a[i] })
            &&& uniform_crossed(a, b, n, st).1[i] == (if swap { a[i] } else { b[i] })
        },
        forall|i: int| n <= i < a.len() ==> #[trigger] uniform_crossed(a, b, n, st).0[i] == a[i],
        forall|i: int| n <= i < b.len() ==> #[trigger] uniform_crossed(a, b, n, st).1[i] == b[i],
    decreases n,
{
    if n > 0 {
        lemma_uniform_positions(a, b, (n - 1) as nat, st);
        assert(state_after(st, n) == xorshift(state_after(st, (n - 1) as nat)));
    }
}

impl MutationPlan {
    /// Whether crossing parents of lengths `a_len` and `b_len` with the generator as it stands
    /// stays within both parents (see `crossover_fits`); the generator is not advanced.
    pub fn crossover_fits(&self, a_len: usize, b_len: usize, rng: &SimpleRng) -> (r: bool)
        ensures
            r == crossover_fits(*self, a_len as nat, b_len as nat, rng@),
    {
        let mut sim = rng.clone();
        let d = sim.next_u32();
        if !((d as u64) < self.crossover_threshold) || a_len <= b_len {
            return true;
        }
        match self.crossover {
            CrossoverMethod::SinglePoint => a_len <= 1,
            CrossoverMethod::Uniform => {
                let ghost st1 = sim@;
                let mut i: usize = 0;
                while i < a_len
                    invariant
                        i <= a_len,
                        b_len < a_len,
                        st1 == xorshift(rng@),
                        passes(u32_draw(rng@), self.crossover_threshold),
                        self.crossover == CrossoverMethod::Uniform,
                        sim@ == state_after(st1, i as nat),
                        forall|j: int|
                            b_len <= j < i ==> !passes(
                                #[trigger] u32_draw(state_after(st1, j as nat)),
                                HALF_DRAW,
                            ),
                    decreases a_len - i,
                {
                    let d = sim.next_u32();
                    assert(state_after(st1, (i + 1) as nat) == xorshift(state_after(st1, i as nat)));
                    if i >= b_len && (d as u64) < HALF_DRAW {
                        assert(passes(u32_draw(state_after(st1, i as nat)), HALF_DRAW));
                        return false;
                    }
                    i = i + 1;
                }
                true
            },
        }
    }

    /// Cross two parents over into two children (see `crossed`); the crossover must stay within
    /// both parents (see `crossover_fits`).
    pub fn crossover(&self, parent_a: &Vec<u8>, parent_b: &Vec<u8>, rng: &mut SimpleRng) -> (r: (Vec<u8>, Vec<u8>))
        requires
            crossover_fits(*self, parent_a@.len(), parent_b@.len(), old(rng)@),
        ensures
            (r.0@, r.1@, final(rng)@) == crossed(*self, parent_a@, parent_b@, old(rng)@),
            conserves(parent_a@, parent_b@, r.0@, r.1@),
            is_ternary_seq(parent_a@) && is_ternary_seq(parent_b@) ==> is_ternary_seq(r.0@)
                && is_ternary_seq(r.1@),
            old(rng)@ != 0 ==> final(rng)@ != 0,
    {
        proof {
            lemma_crossed_conserves(*self, parent_a@, parent_b@, rng@);
        }
        let ghost st0 = rng@;
        let d = rng.next_u32();
        let mut child_a = parent_a.clone();
        let mut child_b = parent_b.clone();
        assert(child_a@ =~= parent_a@);
        assert(child_b@ =~= parent_b@);
        if !((d as u64) < self.crossover_threshold) {
            return (child_a, child_b);
        }
        let len = parent_a.len();
        match self.crossover {
            CrossoverMethod::SinglePoint => {
                if len == 0 {
                    return (child_a, child_b);
                }
                let r = rng.next_u64();
                proof {
                    reveal_with_fuel(state_after, 3);
                }
                let c = (r as usize) % len;
                let point = if c < 1 { 1 } else { c };
                assert(point < len ==> len <= parent_b@.len());
                let ghost x = swap_tails(parent_a@, parent_b@, point as int).0;
                let ghost y = swap_tails(parent_a@, parent_b@, point as int).1;
                let mut i: usize = point;
                while i < len
                    invariant
                        point <= i <= len || (point >= len && i == point),
                        len == parent_a@.len(),
                        point < len ==> len <= parent_b@.len(),
                        child_a@.len() == len,
                        child_b@.len() == parent_b@.len(),
                        x == swap_tails(parent_a@, parent_b@, point as int).0,
                        y == swap_tails(parent_a@, parent_b@, point as int).1,
                        forall|j: int| 0 <= j < i && j < len ==> #[trigger] child_a@[j] == x[j],
                        forall|j: int| i <= j < len ==> #[trigger] child_a@[j] == parent_a@[j],
                        forall|j: int| 0 <= j < i && j < child_b@.len() ==> #[trigger] child_b@[j] == y[j],
                        forall|j: int| i <= j < child_b@.len() ==> #[trigger] child_b@[j] == parent_b@[j],
                    decreases len - i,
                {
                    child_a[i] = parent_b[i];
                    child_b[i] = parent_a[i];
                    i = i + 1;
                }
                assert(child_a@ =~= x);
                assert(child_b@ =~= y);
                (child_a, child_b)
            },
            CrossoverMethod::Uniform => {
                let ghost st1 = rng@;
                proof {
                    lemma_uniform_conserves(parent_a@, parent_b@, 0, st1);
                }
                let mut i: usize = 0;
                while i < len
                    invariant
                        i <= len,
                        len == parent_a@.len(),
                        st1 == xorshift(st0),
                        passes(u32_draw(st0), self.crossover_threshold),
                        self.crossover == CrossoverMethod::Uniform,
                        crossover_fits(*self, parent_a@.len(), parent_b@.len(), st0),
                        st1 != 0 ==> rng@ != 0,
                        (child_a@, child_b@, rng@) == uniform_crossed(parent_a@, parent_b@, i as nat, st1),
                        rng@ == state_after(st1, i as nat),
                        child_a@.len() == len,
                        child_b@.len() == parent_b@.len(),
                    decreases len - i,
                {
                    proof {
                        lemma_uniform_conserves(parent_a@, parent_b@, (i + 1) as nat, st1);
                    }
                    let d = rng.next_u32();
                    if (d as u64) < HALF_DRAW {
                        assert(i < parent_b@.len());
                        child_a[i] = parent_b[i];
                        child_b[i] = parent_a[i];
                    }
                    i = i + 1;
                }
                (child_a, child_b)
            },
        }
    }
}

/// The step of the pattern that autofill extends: the difference of the two values before
/// `start`, modulo 3.
pub open spec fn autofill_step(s: Seq<u8>, start: int) -> int {
    (s[start - 1] as int - s[start - 2] as int) % 3
}

/// Autofill of `s` from position `start` with generator state `st`; returns the strategy and
/// the generator state after. Nothing changes for a strategy shorter than 2 or a start past its
/// end. With two values before `start`, position `start` becomes the value before it plus the
/// step (taken modulo 256, as a byte, then modulo 3) and every later position adds the step
/// again, modulo 3, with no draw. Otherwise each position from `start` on takes a ternary draw.
pub open spec fn autofilled(s: Seq<u8>, start: int, st: u64) -> (Seq<u8>, u64) {
    if s.len() < 2 || start >= s.len() {
        (s, st)
    } else if start >= 2 {
        let d = autofill_step(s, start);
        let w = ((s[start - 1] as int + d) % 256) % 3;
        (Seq::new(s.len(), |i: int| if i < start { s[i] } else { ((w + (i - start) * d) % 3) as u8 }), st)
    } else {
        (
            Seq::new(
                s.len(),
                |i: int| if i < start { s[i] } else { ternary_draw(state_after(st, (i - start) as nat)) },
            ),
            state_after(st, (s.len() - start) as nat),
        )
    }
}

/// Autofill continues the pattern of the two values before `start`: every filled value is
/// ternary and differs from the value before it by the signed difference of those two values,
/// modulo 3 (for the first filled value, whenever the value before it is below 254, so that
/// adding the step does not pass a byte); the positions before `start` keep their values and
/// no draw is taken.
pub proof fn lemma_autofill_progression(s: Seq<u8>, start: int, st: u64)
    requires
        2 <= start < s.len(),
    ensures
        autofilled(s, start, st).1 == st,
        autofilled(s, start, st).0.len() == s.len(),
        forall|i: int| 0 <= i < start ==> #[trigger] autofilled(s, start, st).0[i] == s[i],
        forall|i: int| start <= i < s.len() ==> #[trigger] autofilled(s, start, st).0[i] < 3,
        forall|i: int|
            start < i < s.len() ==> (#[trigger] autofilled(s, start, st).0[i] as int
                - autofilled(s, start, st).0[i - 1] as int) % 3 == (s[start - 1] as int - s[start
                - 2] as int) % 3,
        s[start - 1] < 254 ==> (autofilled(s, start, st).0[start] as int - s[start - 1] as int) % 3
            == (s[start - 1] as int - s[start - 2] as int) % 3,
{
    let r = autofilled(s, start, st).0;
    let d = autofill_step(s, start);
    let w = ((s[start - 1] as int + d) % 256) % 3;
    let g = (s[start - 1] as int - s[start - 2] as int) % 3;
    assert(0 <= d < 3);
    assert forall|i: int| start < i < s.len() implies (#[trigger] r[i] as int - r[i - 1] as int) % 3 == g by {
        let k = i - 1 - start;
        let x = w + k * d;
        assert(x >= 0) by (nonlinear_arith)
            requires
                x == w + k * d,
                w >= 0,
                k >= 0,
                d >= 0,
        ;
        assert(x + d == w + (i - start) * d) by (nonlinear_arith)
            requires
                x == w + k * d,
                k == i - 1 - start,
        ;
        assert(r[i - 1] as int == x % 3);
        assert(r[i] as int == (x + d) % 3);
        assert(((x + d) % 3 - x % 3) % 3 == d % 3);
    }
    if s[start - 1] < 254 {
        assert(r[start] as int == w);
        assert(w == (s[start - 1] as int + d) % 3);
    }
}

/// Autofill mutation, after spreadsheet autofill: extend the pattern of the two values before
/// `start` over the positions from `start` on, or fill them at random when there are not two
/// values before `start` (see `autofilled`). The positions before `start` keep their values and
/// the filled ones are ternary.
pub fn autofill_mutate(strategy: &mut Vec<u8>, start: usize, rng: &mut SimpleRng)
    ensures
        (final(strategy)@, final(rng)@) == autofilled(old(strategy)@, start as int, old(rng)@),
        final(strategy)@.len() == old(strategy)@.len(),
        forall|i: int| 0 <= i < start && i < old(strategy)@.len() ==> #[trigger] final(strategy)@[i] == old(strategy)@[i],
        old(strategy)@.len() >= 2 ==> forall|i: int| start <= i < old(strategy)@.len() ==> is_ternary(#[trigger] final(strategy)@[i]),
        old(rng)@ != 0 ==> final(rng)@ != 0,
{
    let len = strategy.len();
    if len < 2 || start >= len {
        return;
    }
    let ghost s0 = strategy@;
    if start >= 2 {
        let a = strategy[start - 1] as u32;
        let b = strategy[start - 2] as u32;
        let diff = (a + 255 - b) % 3;
        assert(diff == autofill_step(s0, start as int));
        let ghost d = diff as int;
        let ghost w = ((s0[start - 1] as int + d) % 256) % 3;
        let mut i: usize = start;
        while i < len
            invariant
                2 <= start <= i <= len,
                len == s0.len() == strategy@.len(),
                d == diff as int,
                diff < 3,
                w == ((s0[start - 1] as int + d) % 256) % 3,
                forall|j: int| 0 <= j < start ==> #[trigger] strategy@[j] == s0[j],
                forall|j: int| i <= j < len ==> #[trigger] strategy@[j] == s0[j],
                forall|j: int| start <= j < i ==> #[trigger] strategy@[j] == ((w + (j - start) * d) % 3) as u8,
            decreases len - i,
        {
            let prev = strategy[i - 1] as u32;
            let sum = prev + diff;
            let wrapped = if sum >= 256 { sum - 256 } else { sum };
            let v = (wrapped % 3) as u8;
            proof {
                if i > start {
                    let k = i - 1 - start;
                    let x = w + k * d;
                    assert(x >= 0) by (nonlinear_arith)
                        requires
                            x == w + k * d,
                            w >= 0,
                            k >= 0,
                            d >= 0,
                    ;
                    assert(prev == x % 3);
                    assert(sum < 256);
                    vstd::arithmetic::div_mod::lemma_add_mod_noop(x, d, 3);
                    assert(x + d == w + (i - start) * d) by (nonlinear_arith)
                        requires
                            x == w + k * d,
                            k == i - 1 - start,
                    ;
                    assert(v as int == ((w + (i - start) * d) % 3));
                } else {
                    assert(prev as int == s0[start - 1] as int);
                    assert(wrapped as int == (s0[start - 1] as int + d) % 256);
                    assert(v as int == w);
                    assert((i - start) * d == 0);
                }
            }
            strategy[i] = v;
            i = i + 1;
        }
        assert(strategy@ =~= autofilled(s0, start as int, rng@).0);
    } else {
        let ghost r0 = rng@;
        let mut i: usize = start;
        while i < len
            invariant
                start <= i <= len,
                start < 2,
                len == s0.len() == strategy@.len(),
                rng@ == state_after(r0, (i - start) as nat),
                r0 != 0 ==> rng@ != 0,
                forall|j: int| 0 <= j < start ==> #[trigger] strategy@[j] == s0[j],
                forall|j: int| start <= j < i ==> #[trigger] strategy@[j] == ternary_draw(state_after(r0, (j - start) as nat)),
            decreases len - i,
        {
            let d = rng.next_u32();
            strategy[i] = (d % 3) as u8;
            i = i + 1;
        }
        assert(strategy@ =~= autofilled(s0, start as int, r0).0);
    }
}

} // verus!
