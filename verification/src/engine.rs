//! The breeding step of the generational loop: elitism, crossover and mutation.
use vstd::prelude::*;
use crate::mutation::{
    crossed, crossover_fits, lemma_crossed_conserves, lemma_point_mutated, point_mutated, MutationPlan,
};
use crate::population::{is_ternary, is_ternary_seq, SimpleRng};

verus! {

/// The children of the first `k` breeding rounds from generator state `st`: round `r` crosses
/// parents `2r` and `2r + 1` (cyclically) and point-mutates both children, first then second.
/// Returns the `2k` children in order and the generator state after.
pub open spec fn offspring(plan: MutationPlan, parents: Seq<Vec<u8>>, k: nat, st: u64) -> (Seq<Seq<u8>>, u64)
    decreases k,
{
    if k == 0 {
        (Seq::empty(), st)
    } else {
        let (prev, st1) = offspring(plan, parents, (k - 1) as nat, st);
        let p1 = first_parent(parents, (k - 1) as nat);
        let p2 = second_parent(parents, (k - 1) as nat);
        let (c1, c2, st2) = crossed(plan, p1, p2, st1);
        let (m1, st3) = point_mutated(c1, c1.len(), st2, plan.point_threshold);
        let (m2, st4) = point_mutated(c2, c2.len(), st3, plan.point_threshold);
        (prev.push(m1).push(m2), st4)
    }
}

/// Breeding rounds only add children: the children of `k` rounds are the first `2k` children
/// of any longer run of rounds.
pub proof fn lemma_offspring_prefix(plan: MutationPlan, parents: Seq<Vec<u8>>, k: nat, m: nat, st: u64)
    requires
        k <= m,
    ensures
        offspring(plan, parents, k, st).0.len() == 2 * k,
        offspring(plan, parents, m, st).0.len() == 2 * m,
        forall|i: int| 0 <= i < 2 * k ==> #[trigger] offspring(plan, parents, m, st).0[i] == offspring(plan, parents, k, st).0[i],
    decreases m,
{
    if m > 0 {
        if k < m {
            lemma_offspring_prefix(plan, parents, k, (m - 1) as nat, st);
            let prev = offspring(plan, parents, (m - 1) as nat, st).0;
            assert forall|i: int| 0 <= i < 2 * k implies #[trigger] offspring(plan, parents, m, st).0[i] == offspring(plan, parents, k, st).0[i] by {
                assert(offspring(plan, parents, m, st).0[i] == prev[i]);
            }
        } else {
            lemma_offspring_prefix(plan, parents, (m - 1) as nat, (m - 1) as nat, st);
        }
    }
}

/// How many agents are carried over unchanged: the elitism, at most the population size.
pub open spec fn elite_count(elitism: usize, n: nat) -> nat {
    if elitism as nat <= n { elitism as nat } else { n }
}

/// How many breeding rounds fill a population of `n` after `e` elites: two children a round,
/// the second child of the last round dropped when one place is left.
pub open spec fn breeding_rounds(n: nat, e: nat) -> nat {
    if n > e { ((n - e + 1) as nat) / 2 } else { 0 }
}

/// All parents have strategies of one length.
pub open spec fn same_length(parents: Seq<Vec<u8>>) -> bool {
    forall|i: int, j: int| 0 <= i < parents.len() && 0 <= j < parents.len() ==> (#[trigger] parents[i])@.len() == (#[trigger] parents[j])@.len()
}

/// The first parent of breeding round `r`.
pub open spec fn first_parent(parents: Seq<Vec<u8>>, r: nat) -> Seq<u8> {
    parents[((2 * r) as int) % (parents.len() as int)]@
}

/// The second parent of breeding round `r`.
pub open spec fn second_parent(parents: Seq<Vec<u8>>, r: nat) -> Seq<u8> {
    parents[((2 * r + 1) as int) % (parents.len() as int)]@
}

/// Every crossover of the first `k` breeding rounds from state `st` stays within its parents
/// (see `crossover_fits`).
pub open spec fn breeding_fits(plan: MutationPlan, parents: Seq<Vec<u8>>, k: nat, st: u64) -> bool
    decreases k,
{
    k == 0 || (breeding_fits(plan, parents, (k - 1) as nat, st) && crossover_fits(
        plan,
        first_parent(parents, (k - 1) as nat).len(),
        second_parent(parents, (k - 1) as nat).len(),
        offspring(plan, parents, (k - 1) as nat, st).1,
    ))
}

/// Fewer rounds fit when more rounds do.
pub proof fn lemma_breeding_fits_prefix(plan: MutationPlan, parents: Seq<Vec<u8>>, k: nat, j: nat, st: u64)
    requires
        breeding_fits(plan, parents, k, st),
        j <= k,
    ensures
        breeding_fits(plan, parents, j, st),
    decreases k,
{
    if j < k {
        lemma_breeding_fits_prefix(plan, parents, (k - 1) as nat, j, st);
    }
}

/// Parents of one length fit every round of breeding.
pub proof fn lemma_same_length_fits(plan: MutationPlan, parents: Seq<Vec<u8>>, k: nat, st: u64)
    requires
        parents.len() > 0,
        same_length(parents),
    ensures
        breeding_fits(plan, parents, k, st),
    decreases k,
{
    if k > 0 {
        lemma_same_length_fits(plan, parents, (k - 1) as nat, st);
        let r = (k - 1) as nat;
        assert(parents[((2 * r) as int) % (parents.len() as int)]@.len() == parents[((2 * r + 1) as int) % (parents.len() as int)]@.len());
    }
}

/// The stop rule of the generational loop, checked after the census of generation
/// `generation` (counted from 0): the run stops early when the population has converged and
/// more than five generations have passed, and then reports `generation + 1` generations run.
pub fn early_stop(converged: bool, generation: usize) -> (r: Option<usize>)
    requires
        generation < usize::MAX,
    ensures
        r == (if converged && generation > 5 {
            Some((generation + 1) as usize)
        } else {
            None::<usize>
        }),
{
    if converged && generation > 5 {
        Some(generation + 1)
    } else {
        None
    }
}

/// Every strategy of `ss` is ternary.
pub open spec fn all_ternary(ss: Seq<Vec<u8>>) -> bool {
    forall|i: int| 0 <= i < ss.len() ==> is_ternary_seq((#[trigger] ss[i])@)
}

/// Breeding keeps ternary material ternary: the offspring of ternary parents are ternary.
pub proof fn lemma_offspring_ternary(plan: MutationPlan, parents: Seq<Vec<u8>>, k: nat, st: u64)
    requires
        parents.len() > 0,
        breeding_fits(plan, parents, k, st),
        all_ternary(parents),
    ensures
        offspring(plan, parents, k, st).0.len() == 2 * k,
        forall|i: int| 0 <= i < 2 * k ==> is_ternary_seq(#[trigger] offspring(plan, parents, k, st).0[i]),
    decreases k,
{
    if k > 0 {
        lemma_offspring_ternary(plan, parents, (k - 1) as nat, st);
        let (prev, st1) = offspring(plan, parents, (k - 1) as nat, st);
        let p1 = first_parent(parents, (k - 1) as nat);
        let p2 = second_parent(parents, (k - 1) as nat);
        assert(is_ternary_seq(p1) && is_ternary_seq(p2)) by {
            let i1 = ((2 * (k - 1)) as int) % (parents.len() as int);
            let i2 = ((2 * (k - 1) + 1) as int) % (parents.len() as int);
            assert(is_ternary_seq(parents[i1]@));
            assert(is_ternary_seq(parents[i2]@));
        }
        lemma_crossed_conserves(plan, p1, p2, st1);
        let (c1, c2, st2) = crossed(plan, p1, p2, st1);
        lemma_point_mutated(c1, c1.len(), st2, plan.point_threshold);
        let (m1, st3) = point_mutated(c1, c1.len(), st2, plan.point_threshold);
        lemma_point_mutated(c2, c2.len(), st3, plan.point_threshold);
        let (m2, st4) = point_mutated(c2, c2.len(), st3, plan.point_threshold);
        assert forall|j: int| 0 <= j < m1.len() implies is_ternary(#[trigger] m1[j]) by {
            assert(m1[j] == c1[j] || is_ternary(m1[j]));
        }
        assert forall|j: int| 0 <= j < m2.len() implies is_ternary(#[trigger] m2[j]) by {
            assert(m2[j] == c2[j] || is_ternary(m2[j]));
        }
        let all = prev.push(m1).push(m2);
        assert forall|j: int| 0 <= j < 2 * k implies is_ternary_seq(#[trigger] all[j]) by {
            if j < 2 * (k - 1) {
                assert(all[j] == prev[j]);
            }
        }
    }
}

impl MutationPlan {
    /// Whether every crossover of `next_generation` on a population of `ranked_len` agents stays
    /// within its parents (see `breeding_fits`); the generator is not advanced. Parents of one
    /// length always fit.
    pub fn next_generation_fits(
        &self,
        ranked_len: usize,
        parents: &Vec<Vec<u8>>,
        elitism: usize,
        rng: &SimpleRng,
    ) -> (r: bool)
        requires
            elite_count(elitism, ranked_len as nat) < ranked_len ==> parents@.len() > 0,
        ensures
            r == breeding_fits(
                *self,
                parents@,
                breeding_rounds(ranked_len as nat, elite_count(elitism, ranked_len as nat)),
                rng@,
            ),
    {
        let n = ranked_len;
        let e = if elitism <= n { elitism } else { n };
        let pl = parents.len();
        let mut sim = rng.clone();
        let mut filled: usize = e;
        let ghost mut k: nat = 0;
        while filled < n
            invariant
                e <= n,
                n == ranked_len,
                e as nat == elite_count(elitism, n as nat),
                pl == parents@.len(),
                e < n ==> pl > 0,
                filled == e + 2 * k || (filled == n && e + 2 * k == n + 1),
                filled <= n,
                breeding_fits(*self, parents@, k, rng@),
                sim@ == offspring(*self, parents@, k, rng@).1,
            decreases n - filled,
        {
            let i = filled - e;
            let p1 = &parents[i % pl];
            let p2 = &parents[(i + 1) % pl];
            if !self.crossover_fits(p1.len(), p2.len(), &sim) {
                proof {
                    assert(i == 2 * k);
                    assert(!breeding_fits(*self, parents@, k + 1, rng@));
                    let kk = breeding_rounds(n as nat, e as nat);
                    assert(k + 1 <= kk);
                    if breeding_fits(*self, parents@, kk, rng@) {
                        lemma_breeding_fits_prefix(*self, parents@, kk, k + 1, rng@);
                    }
                }
                return false;
            }
            let (mut c1, mut c2) = self.crossover(p1, p2, &mut sim);
            self.point_mutate(&mut c1, &mut sim);
            self.point_mutate(&mut c2, &mut sim);
            proof {
                k = k + 1;
            }
            if n - filled >= 2 {
                filled = filled + 2;
            } else {
                filled = n;
            }
        }
        proof {
            assert(k == breeding_rounds(n as nat, e as nat));
        }
        true
    }

    /// The next generation of a population of `ranked.len()` agents, ranked best first: the
    /// first `elitism` agents (at most all) are carried over unchanged, and the remaining places
    /// are filled by breeding rounds over `parents` (see `offspring`).
    pub fn next_generation(
        &self,
        ranked: &Vec<Vec<u8>>,
        parents: &Vec<Vec<u8>>,
        elitism: usize,
        rng: &mut SimpleRng,
    ) -> (r: Vec<Vec<u8>>)
        requires
            elite_count(elitism, ranked@.len()) < ranked@.len() ==> parents@.len() > 0,
            breeding_fits(
                *self,
                parents@,
                breeding_rounds(ranked@.len(), elite_count(elitism, ranked@.len())),
                old(rng)@,
            ),
        ensures
            r@.len() == ranked@.len(),
            forall|j: int| 0 <= j < elite_count(elitism, ranked@.len()) ==> (#[trigger] r@[j])@ == ranked@[j]@,
            forall|j: int|
                elite_count(elitism, ranked@.len()) <= j < ranked@.len() ==> (#[trigger] r@[j])@
                    == offspring(
                    *self,
                    parents@,
                    breeding_rounds(ranked@.len(), elite_count(elitism, ranked@.len())),
                    old(rng)@,
                ).0[j - elite_count(elitism, ranked@.len())],
            final(rng)@ == offspring(
                *self,
                parents@,
                breeding_rounds(ranked@.len(), elite_count(elitism, ranked@.len())),
                old(rng)@,
            ).1,
            all_ternary(ranked@) && all_ternary(parents@) ==> all_ternary(r@),
            old(rng)@ != 0 ==> final(rng)@ != 0,
            // Exactly the first min(elitism, n) agents are carried over; every later place holds
            // the next child of the breeding rounds, in order.
            ({
                let n = ranked@.len();
                let e: int = if elitism <= n { elitism as int } else { n as int };
                &&& forall|j: int| 0 <= j < e ==> (#[trigger] r@[j])@ == ranked@[j]@
                &&& forall|j: int|
                    e <= j < n ==> (#[trigger] r@[j])@ == offspring(*self, parents@, n, old(rng)@).0[j - e]
                &&& final(rng)@ == offspring(
                    *self,
                    parents@,
                    (if n > e { (n - e + 1) / 2 } else { 0 }) as nat,
                    old(rng)@,
                ).1
            }),
    {
        let n = ranked.len();
        let e = if elitism <= n { elitism } else { n };
        let ghost r0 = rng@;
        let mut next: Vec<Vec<u8>> = Vec::new();
        let mut j: usize = 0;
        while j < e
            invariant
                j <= e <= n,
                n == ranked@.len(),
                next@.len() == j,
                forall|q: int| 0 <= q < j ==> (#[trigger] next@[q])@ == ranked@[q]@,
            decreases e - j,
        {
            let s = ranked[j].clone();
            assert(s@ =~= ranked@[j as int]@);
            next.push(s);
            j = j + 1;
        }
        let pl = parents.len();
        let ghost mut k: nat = 0;
        while next.len() < n
            invariant
                e <= n,
                n == ranked@.len(),
                e as nat == elite_count(elitism, n as nat),
                pl == parents@.len(),
                e < n ==> pl > 0,
                breeding_fits(*self, parents@, breeding_rounds(n as nat, e as nat), r0),
                next@.len() <= n,
                next@.len() < n ==> next@.len() == e + 2 * k,
                next@.len() == n ==> (e + 2 * k == n || e + 2 * k == n + 1),
                forall|q: int| 0 <= q < e ==> (#[trigger] next@[q])@ == ranked@[q]@,
                forall|q: int| e <= q < next@.len() ==> (#[trigger] next@[q])@ == offspring(*self, parents@, k, r0).0[q - e],
                offspring(*self, parents@, k, r0).0.len() == 2 * k,
                rng@ == offspring(*self, parents@, k, r0).1,
                r0 != 0 ==> rng@ != 0,
            decreases n - next@.len(),
        {
            let i = next.len() - e;
            proof {
                lemma_breeding_fits_prefix(*self, parents@, breeding_rounds(n as nat, e as nat), k + 1, r0);
                assert(i == 2 * k);
            }
            let p1 = &parents[i % pl];
            let p2 = &parents[(i + 1) % pl];
            let (mut c1, mut c2) = self.crossover(p1, p2, rng);
            self.point_mutate(&mut c1, rng);
            self.point_mutate(&mut c2, rng);
            let ghost prev = offspring(*self, parents@, k, r0).0;
            proof {
                k = k + 1;
                assert(offspring(*self, parents@, k, r0).0 == prev.push(c1@).push(c2@));
            }
            next.push(c1);
            if next.len() < n {
                next.push(c2);
            }
        }
        proof {
            assert(k == breeding_rounds(n as nat, e as nat));
            if all_ternary(ranked@) && all_ternary(parents@) {
                if e < n {
                    lemma_offspring_ternary(*self, parents@, k, r0);
                }
                assert forall|q: int| 0 <= q < next@.len() implies is_ternary_seq((#[trigger] next@[q])@) by {
                    if q < e {
                        assert(next@[q]@ == ranked@[q]@);
                    } else {
                        assert(next@[q]@ == offspring(*self, parents@, k, r0).0[q - e]);
                    }
                }
            }
        }
        proof {
            lemma_offspring_prefix(*self, parents@, k, n as nat, r0);
        }
        next
    }
}

} // verus!
