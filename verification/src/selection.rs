//! Tournament selection over agents' integer fitness keys.
use vstd::prelude::*;
use crate::population::{u64_draw, xorshift, SimpleRng};

verus! {

/// The contender drawn from generator state `st` in a population of `pop` agents:
/// a 64-bit draw modulo the population size.
pub open spec fn contender(st: u64, pop: nat) -> int {
    (u64_draw(st) as usize) as int % (pop as int)
}

/// The number of contenders per tournament: the requested size, at least 1 and at most the
/// population size.
pub open spec fn tournament_size(k: usize, pop: nat) -> nat {
    let a: nat = if k < 1 { 1 } else { k as nat };
    if a > pop { pop } else { a }
}

/// A tournament has as many contenders as requested, clamped to between 1 and the population
/// size.
pub proof fn lemma_tournament_size(k: usize, pop: nat)
    ensures
        1 <= k <= pop ==> tournament_size(k, pop) == k,
        k == 0 && pop >= 1 ==> tournament_size(k, pop) == 1,
        k > pop ==> tournament_size(k, pop) == pop,
        pop >= 1 ==> 1 <= tournament_size(k, pop) <= pop,
{
}

/// The winner among the first `m` (at least one) contenders drawn from state `st`: a later
/// contender replaces the current winner unless the winner's key is strictly higher, so the
/// last of the best contenders wins. Returns the winner and the generator state after.
pub open spec fn tournament_winner(keys: Seq<i64>, m: nat, st: u64) -> (int, u64)
    decreases m,
{
    if m <= 1 {
        (contender(st, keys.len()), xorshift(xorshift(st)))
    } else {
        let (best, st1) = tournament_winner(keys, (m - 1) as nat, st);
        let c = contender(st1, keys.len());
        (if keys[c] >= keys[best] { c } else { best }, xorshift(xorshift(st1)))
    }
}

/// The first `m` contenders drawn from state `st`, in order of drawing.
pub open spec fn contenders(keys: Seq<i64>, m: nat, st: u64) -> Seq<int>
    decreases m,
{
    if m == 0 {
        Seq::empty()
    } else if m == 1 {
        seq![contender(st, keys.len())]
    } else {
        let st1 = tournament_winner(keys, (m - 1) as nat, st).1;
        contenders(keys, (m - 1) as nat, st).push(contender(st1, keys.len()))
    }
}

/// A tournament returns the best of its contenders: the winner is a contender, no contender
/// has a higher key, and no later contender has a key as high.
pub proof fn lemma_winner_is_best(keys: Seq<i64>, m: nat, st: u64)
    requires
        keys.len() > 0,
        m >= 1,
    ensures
        contenders(keys, m, st).len() == m,
        forall|i: int| 0 <= i < m ==> 0 <= #[trigger] contenders(keys, m, st)[i] < keys.len(),
        exists|i: int| 0 <= i < m && contenders(keys, m, st)[i] == tournament_winner(keys, m, st).0
            && forall|j: int| i < j < m ==> keys[#[trigger] contenders(keys, m, st)[j]] < keys[tournament_winner(keys, m, st).0],
        forall|i: int| 0 <= i < m ==> keys[#[trigger] contenders(keys, m, st)[i]] <= keys[tournament_winner(keys, m, st).0],
    decreases m,
{
    if m > 1 {
        lemma_winner_is_best(keys, (m - 1) as nat, st);
        lemma_winner_in_range(keys, (m - 1) as nat, st);
        let prev = contenders(keys, (m - 1) as nat, st);
        let (best, st1) = tournament_winner(keys, (m - 1) as nat, st);
        let c = contender(st1, keys.len());
        let cs = contenders(keys, m, st);
        let w = tournament_winner(keys, m, st).0;
        assert(cs == prev.push(c));
        if keys[c] >= keys[best] {
            assert(cs[m - 1] == w);
        } else {
            let i = choose|i: int| 0 <= i < m - 1 && prev[i] == best
                && forall|j: int| i < j < m - 1 ==> keys[#[trigger] prev[j]] < keys[best];
            assert(cs[i] == w);
            assert forall|j: int| i < j < m implies keys[#[trigger] cs[j]] < keys[w] by {
                if j < m - 1 {
                    assert(cs[j] == prev[j]);
                }
            }
        }
        assert forall|i: int| 0 <= i < m implies keys[#[trigger] cs[i]] <= keys[w] by {
            if i < m - 1 {
                assert(cs[i] == prev[i]);
            }
        }
    } else {
        let cs = contenders(keys, m, st);
        assert(cs[0] == tournament_winner(keys, m, st).0);
    }
}

/// The winners of `n` tournaments of `k` contenders each, held one after the other from
/// state `st`, and the generator state after.
pub open spec fn tournament_picks(keys: Seq<i64>, n: nat, k: nat, st: u64) -> (Seq<usize>, u64)
    decreases n,
{
    if n == 0 {
        (Seq::empty(), st)
    } else {
        let (p, st1) = tournament_picks(keys, (n - 1) as nat, k, st);
        let (w, st2) = tournament_winner(keys, k, st1);
        (p.push(w as usize), st2)
    }
}

/// A tournament's winner is one of the population.
pub proof fn lemma_winner_in_range(keys: Seq<i64>, m: nat, st: u64)
    requires
        keys.len() > 0,
    ensures
        0 <= tournament_winner(keys, m, st).0 < keys.len(),
    decreases m,
{
    if m > 1 {
        lemma_winner_in_range(keys, (m - 1) as nat, st);
    }
}

/// Every pick of a run of tournaments is a position of the population.
pub proof fn lemma_picks_in_range(keys: Seq<i64>, n: nat, k: nat, st: u64)
    requires
        keys.len() > 0,
    ensures
        tournament_picks(keys, n, k, st).0.len() == n,
        forall|i: int|
            0 <= i < n ==> #[trigger] tournament_picks(keys, n, k, st).0[i] < keys.len(),
    decreases n,
{
    if n > 0 {
        lemma_picks_in_range(keys, (n - 1) as nat, k, st);
        let (p, st1) = tournament_picks(keys, (n - 1) as nat, k, st);
        lemma_winner_in_range(keys, k, st1);
    }
}

/// Tournament selection: the positions of `n` parents, each the winner of a tournament among
/// randomly drawn contenders (see `tournament_picks`); `keys[i]` is the fitness key of agent `i`.
pub fn tournament_select(keys: &Vec<i64>, n: usize, k: usize, rng: &mut SimpleRng) -> (r: Vec<usize>)
    requires
        keys@.len() > 0 || n == 0,
    ensures
        (r@, final(rng)@) == tournament_picks(keys@, n as nat, tournament_size(k, keys@.len()), old(rng)@),
        1 <= k <= keys@.len() ==> (r@, final(rng)@) == tournament_picks(keys@, n as nat, k as nat, old(rng)@),
        k == 0 ==> (r@, final(rng)@) == tournament_picks(keys@, n as nat, 1, old(rng)@),
        k > keys@.len() ==> (r@, final(rng)@) == tournament_picks(keys@, n as nat, keys@.len(), old(rng)@),
        r@.len() == n,
        forall|i: int| 0 <= i < n ==> #[trigger] r@[i] < keys@.len(),
        old(rng)@ != 0 ==> final(rng)@ != 0,
{
    let pop_size = keys.len();
    let k1 = if k < 1 { 1 } else { k };
    let size = if k1 > pop_size { pop_size } else { k1 };
    assert(size as nat == tournament_size(k, keys@.len()));
    proof {
        lemma_tournament_size(k, keys@.len());
    }
    let ghost r0 = rng@;
    let mut picks: Vec<usize> = Vec::new();
    let mut i: usize = 0;
    while i < n
        invariant
            i <= n,
            pop_size == keys@.len(),
            pop_size > 0 || n == 0,
            (picks@, rng@) == tournament_picks(keys@, i as nat, size as nat, r0),
            r0 != 0 ==> rng@ != 0,
            n > 0 ==> size >= 1,
        decreases n - i,
    {
        let ghost st1 = rng@;
        let r = rng.next_u64();
        let mut best: usize = (r as usize) % pop_size;
        let mut m: usize = 1;
        proof {
            reveal_with_fuel(crate::population::state_after, 3);
        }
        while m < size
            invariant
                1 <= m <= size,
                pop_size == keys@.len() > 0,
                (best as int, rng@) == tournament_winner(keys@, m as nat, st1),
                r0 != 0 ==> rng@ != 0,
            decreases size - m,
        {
            proof {
                lemma_winner_in_range(keys@, m as nat, st1);
                reveal_with_fuel(crate::population::state_after, 3);
            }
            let r = rng.next_u64();
            let c = (r as usize) % pop_size;
            if keys[c] >= keys[best] {
                best = c;
            }
            m = m + 1;
        }
        picks.push(best);
        i = i + 1;
    }
    proof {
        if n > 0 {
            lemma_picks_in_range(keys@, n as nat, size as nat, r0);
        }
    }
    picks
}

} // verus!
