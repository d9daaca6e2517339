//! Species classification by strategy composition, and tracking of species counts over time.
use vstd::prelude::*;

verus! {

/// A species classification based on strategy composition.
#[derive(Clone, Copy, Debug, PartialEq, Eq, Hash, Structural)]
pub enum Species {
    /// Dominated by 0s: cautious, risk-averse.
    Explorer,
    /// Dominated by 1s: moderate, balanced.
    Diplomat,
    /// Dominated by 2s: aggressive, risk-seeking.
    Warrior,
    /// No dominant value: mixed strategy.
    Hybrid,
}

/// How many times `v` occurs in `s`.
pub open spec fn count_of(s: Seq<u8>, v: u8) -> nat
    decreases s.len(),
{
    if s.len() == 0 {
        0
    } else {
        count_of(s.drop_last(), v) + if s.last() == v {
            1nat
        } else {
            0nat
        }
    }
}

/// A value occurs no more often than the sequence is long.
pub proof fn lemma_count_of_bound(s: Seq<u8>, v: u8)
    ensures
        count_of(s, v) <= s.len(),
    decreases s.len(),
{
    if s.len() > 0 {
        lemma_count_of_bound(s.drop_last(), v);
    }
}

/// Two different values together occur no more often than the sequence is long.
pub proof fn lemma_count_pair_bound(s: Seq<u8>, a: u8, b: u8)
    requires
        a != b,
    ensures
        count_of(s, a) + count_of(s, b) <= s.len(),
    decreases s.len(),
{
    if s.len() > 0 {
        lemma_count_pair_bound(s.drop_last(), a, b);
    }
}

/// At most one value fills strictly more than half of a strategy, so the species of a strategy
/// does not depend on the order in which the values are tried.
pub proof fn lemma_majority_unique(s: Seq<u8>, a: u8, b: u8)
    requires
        2 * count_of(s, a) > s.len(),
        2 * count_of(s, b) > s.len(),
    ensures
        a == b,
{
    if a != b {
        lemma_count_pair_bound(s, a, b);
    }
}

/// The species of a strategy: the value that fills strictly more than half of it, or `Hybrid`
/// when none does or the strategy is empty.
pub open spec fn species_of(s: Seq<u8>) -> Species {
    if s.len() == 0 {
        Species::Hybrid
    } else if 2 * count_of(s, 0) > s.len() {
        Species::Explorer
    } else if 2 * count_of(s, 1) > s.len() {
        Species::Diplomat
    } else if 2 * count_of(s, 2) > s.len() {
        Species::Warrior
    } else {
        Species::Hybrid
    }
}

/// How many times each of 0, 1 and 2 occurs in `strategy`; other values are not counted.
pub fn count_ternary(strategy: &Vec<u8>) -> (counts: [usize; 3])
    ensures
        counts@[0] == count_of(strategy@, 0),
        counts@[1] == count_of(strategy@, 1),
        counts@[2] == count_of(strategy@, 2),
{
    let mut counts: [usize; 3] = [0, 0, 0];
    let mut i: usize = 0;
    while i < strategy.len()
        invariant
            i <= strategy@.len(),
            counts@[0] == count_of(strategy@.take(i as int), 0),
            counts@[1] == count_of(strategy@.take(i as int), 1),
            counts@[2] == count_of(strategy@.take(i as int), 2),
        decreases strategy.len() - i,
    {
        let v = strategy[i];
        proof {
            assert(strategy@.take(i + 1).drop_last() =~= strategy@.take(i as int));
            lemma_count_of_bound(strategy@.take(i as int), 0);
            lemma_count_of_bound(strategy@.take(i as int), 1);
            lemma_count_of_bound(strategy@.take(i as int), 2);
        }
        if v <= 2 {
            let k = v as usize;
            counts[k] = counts[k] + 1;
        }
        i = i + 1;
    }
    assert(strategy@.take(i as int) =~= strategy@);
    counts
}

/// `count_of` counts what `Seq::filter` keeps of a value.
pub proof fn lemma_count_of_filter(s: Seq<u8>, v: u8, keep: spec_fn(u8) -> bool)
    requires
        forall|x: u8| #[trigger] keep(x) == (x == v),
    ensures
        count_of(s, v) == s.filter(keep).len(),
    decreases s.len(),
{
    reveal_with_fuel(Seq::<u8>::filter, 1);
    if s.len() > 0 {
        lemma_count_of_filter(s.drop_last(), v, keep);
        assert(keep(s.last()) == (s.last() == v));
    }
}

/// The species of a strategy is decided by strict majority: it is Explorer, Diplomat or
/// Warrior exactly when 0, 1 or 2 fills more than half of the (non-empty) strategy, and
/// Hybrid exactly when no value does. `zeros`, `ones` and `twos` select the values 0, 1, 2.
pub proof fn lemma_species_by_strict_majority(
    s: Seq<u8>,
    zeros: spec_fn(u8) -> bool,
    ones: spec_fn(u8) -> bool,
    twos: spec_fn(u8) -> bool,
)
    requires
        forall|x: u8| #[trigger] zeros(x) == (x == 0),
        forall|x: u8| #[trigger] ones(x) == (x == 1),
        forall|x: u8| #[trigger] twos(x) == (x == 2),
    ensures
        (species_of(s) == Species::Explorer) == (s.len() > 0 && 2 * s.filter(zeros).len() > s.len()),
        (species_of(s) == Species::Diplomat) == (s.len() > 0 && 2 * s.filter(ones).len() > s.len()),
        (species_of(s) == Species::Warrior) == (s.len() > 0 && 2 * s.filter(twos).len() > s.len()),
        (species_of(s) == Species::Hybrid) == (s.len() == 0 || (2 * s.filter(zeros).len() <= s.len()
            && 2 * s.filter(ones).len() <= s.len() && 2 * s.filter(twos).len() <= s.len())),
{
    lemma_count_of_filter(s, 0, zeros);
    lemma_count_of_filter(s, 1, ones);
    lemma_count_of_filter(s, 2, twos);
    lemma_count_pair_bound(s, 0, 1);
    lemma_count_pair_bound(s, 0, 2);
    lemma_count_pair_bound(s, 1, 2);
}

impl Species {
    /// Classify a strategy: a value that fills strictly more than half of it names the species
    /// (0 Explorer, 1 Diplomat, 2 Warrior); otherwise, or when it is empty, `Hybrid`.
    pub fn classify(strategy: &Vec<u8>) -> (r: Species)
        ensures
            r == species_of(strategy@),
    {
        if strategy.len() == 0 {
            return Species::Hybrid;
        }
        let counts = count_ternary(strategy);
        let total = strategy.len();
        proof {
            lemma_count_of_bound(strategy@, 0);
            lemma_count_of_bound(strategy@, 1);
            lemma_count_of_bound(strategy@, 2);
        }
        if counts[0] > total - counts[0] {
            Species::Explorer
        } else if counts[1] > total - counts[1] {
            Species::Diplomat
        } else if counts[2] > total - counts[2] {
            Species::Warrior
        } else {
            Species::Hybrid
        }
    }
}


/// How many of the strategies in `ss` belong to species `sp`.
pub open spec fn species_count(ss: Seq<Vec<u8>>, sp: Species) -> nat
    decreases ss.len(),
{
    if ss.len() == 0 {
        0
    } else {
        species_count(ss.drop_last(), sp) + if species_of(ss.last()@) == sp {
            1nat
        } else {
            0nat
        }
    }
}

/// The species census of `ss`: counts of Explorer, Diplomat, Warrior and Hybrid, in that order.
pub open spec fn census(ss: Seq<Vec<u8>>) -> (int, int, int, int) {
    (
        species_count(ss, Species::Explorer) as int,
        species_count(ss, Species::Diplomat) as int,
        species_count(ss, Species::Warrior) as int,
        species_count(ss, Species::Hybrid) as int,
    )
}

/// Every strategy falls into exactly one species: the four counts add up to the number of strategies.
pub proof fn lemma_census_total(ss: Seq<Vec<u8>>)
    ensures
        census(ss).0 + census(ss).1 + census(ss).2 + census(ss).3 == ss.len(),
    decreases ss.len(),
{
    if ss.len() > 0 {
        lemma_census_total(ss.drop_last());
    }
}

proof fn lemma_species_count_filter(ss: Seq<Vec<u8>>, sp: Species, keep: spec_fn(Vec<u8>) -> bool)
    requires
        forall|v: Vec<u8>| #[trigger] keep(v) == (species_of(v@) == sp),
    ensures
        species_count(ss, sp) == ss.filter(keep).len(),
    decreases ss.len(),
{
    reveal_with_fuel(Seq::<Vec<u8>>::filter, 1);
    if ss.len() > 0 {
        lemma_species_count_filter(ss.drop_last(), sp, keep);
        assert(keep(ss.last()) == (species_of(ss.last()@) == sp));
    }
}

/// The census counts, in order, the strategies classified Explorer, Diplomat, Warrior and
/// Hybrid; `explorers` and the rest select the strategies of each species.
pub proof fn lemma_census_by_species(
    ss: Seq<Vec<u8>>,
    explorers: spec_fn(Vec<u8>) -> bool,
    diplomats: spec_fn(Vec<u8>) -> bool,
    warriors: spec_fn(Vec<u8>) -> bool,
    hybrids: spec_fn(Vec<u8>) -> bool,
)
    requires
        forall|v: Vec<u8>| #[trigger] explorers(v) == (species_of(v@) == Species::Explorer),
        forall|v: Vec<u8>| #[trigger] diplomats(v) == (species_of(v@) == Species::Diplomat),
        forall|v: Vec<u8>| #[trigger] warriors(v) == (species_of(v@) == Species::Warrior),
        forall|v: Vec<u8>| #[trigger] hybrids(v) == (species_of(v@) == Species::Hybrid),
    ensures
        census(ss).0 == ss.filter(explorers).len(),
        census(ss).1 == ss.filter(diplomats).len(),
        census(ss).2 == ss.filter(warriors).len(),
        census(ss).3 == ss.filter(hybrids).len(),
{
    lemma_species_count_filter(ss, Species::Explorer, explorers);
    lemma_species_count_filter(ss, Species::Diplomat, diplomats);
    lemma_species_count_filter(ss, Species::Warrior, warriors);
    lemma_species_count_filter(ss, Species::Hybrid, hybrids);
}

/// The largest of four counts.
pub open spec fn max4(c: (usize, usize, usize, usize)) -> usize {
    let m01 = if c.0 >= c.1 { c.0 } else { c.1 };
    let m23 = if c.2 >= c.3 { c.2 } else { c.3 };
    if m01 >= m23 { m01 } else { m23 }
}

/// The dominant species of a census: the first of Explorer, Diplomat, Warrior, Hybrid whose
/// count is the largest.
pub open spec fn dominant_of(c: (usize, usize, usize, usize)) -> Species {
    let m = max4(c);
    if c.0 == m {
        Species::Explorer
    } else if c.1 == m {
        Species::Diplomat
    } else if c.2 == m {
        Species::Warrior
    } else {
        Species::Hybrid
    }
}

/// The dominant species has the largest count of its census, and every species before it in
/// the order Explorer, Diplomat, Warrior, Hybrid has a smaller count.
pub proof fn lemma_dominant_is_largest(c: (usize, usize, usize, usize))
    ensures
        ({
            let d = dominant_of(c);
            let count = match d {
                Species::Explorer => c.0,
                Species::Diplomat => c.1,
                Species::Warrior => c.2,
                Species::Hybrid => c.3,
            };
            &&& count >= c.0 && count >= c.1 && count >= c.2 && count >= c.3
            &&& (d == Species::Diplomat ==> c.0 < count)
            &&& (d == Species::Warrior ==> c.0 < count && c.1 < count)
            &&& (d == Species::Hybrid ==> c.0 < count && c.1 < count && c.2 < count)
        }),
{
}

/// How many species of a census have at least one member.
pub open spec fn diversity_of(c: (usize, usize, usize, usize)) -> nat {
    (if c.0 > 0 { 1nat } else { 0nat }) + (if c.1 > 0 { 1nat } else { 0nat }) + (if c.2 > 0 {
        1nat
    } else {
        0nat
    }) + (if c.3 > 0 { 1nat } else { 0nat })
}

/// Diversity counts the species present: it is 0 exactly for an empty census and 4 exactly
/// when every species has a member, and giving a member to an absent species raises it by one.
pub proof fn lemma_diversity_counts_present(c: (usize, usize, usize, usize))
    ensures
        diversity_of(c) <= 4,
        (diversity_of(c) == 0) == (c.0 == 0 && c.1 == 0 && c.2 == 0 && c.3 == 0),
        (diversity_of(c) == 4) == (c.0 > 0 && c.1 > 0 && c.2 > 0 && c.3 > 0),
        c.0 == 0 ==> diversity_of((1, c.1, c.2, c.3)) == diversity_of(c) + 1,
        c.1 == 0 ==> diversity_of((c.0, 1, c.2, c.3)) == diversity_of(c) + 1,
        c.2 == 0 ==> diversity_of((c.0, c.1, 1, c.3)) == diversity_of(c) + 1,
        c.3 == 0 ==> diversity_of((c.0, c.1, c.2, 1)) == diversity_of(c) + 1,
{
}

/// The last `n` entries of `h` are all equal, and `h` holds more than `n` entries.
pub open spec fn stable_for(h: Seq<(usize, usize, usize, usize)>, n: nat) -> bool {
    &&& h.len() > n
    &&& forall|i: int| h.len() - n <= i < h.len() ==> #[trigger] h[i] == h[h.len() - n]
}

/// Tracks species composition across the population over time.
#[derive(Clone, Debug)]
pub struct SpeciesTracker {
    /// Species counts per generation: (explorer, diplomat, warrior, hybrid).
    pub history: Vec<(usize, usize, usize, usize)>,
}

impl SpeciesTracker {
    /// An empty tracker.
    pub fn new() -> (r: Self)
        ensures
            r.history@ == Seq::<(usize, usize, usize, usize)>::empty(),
    {
        SpeciesTracker { history: Vec::new() }
    }

    /// Record the species census of the current population (one strategy per agent), append it
    /// to the history and return it.
    pub fn record(&mut self, strategies: &Vec<Vec<u8>>) -> (counts: (usize, usize, usize, usize))
        ensures
            counts.0 == census(strategies@).0,
            counts.1 == census(strategies@).1,
            counts.2 == census(strategies@).2,
            counts.3 == census(strategies@).3,
            final(self).history@ == old(self).history@.push(counts),
    {
        let mut counts: (usize, usize, usize, usize) = (0, 0, 0, 0);
        let mut i: usize = 0;
        while i < strategies.len()
            invariant
                i <= strategies@.len(),
                counts.0 == census(strategies@.take(i as int)).0,
                counts.1 == census(strategies@.take(i as int)).1,
                counts.2 == census(strategies@.take(i as int)).2,
                counts.3 == census(strategies@.take(i as int)).3,
            decreases strategies.len() - i,
        {
            proof {
                assert(strategies@.take(i + 1).drop_last() =~= strategies@.take(i as int));
                lemma_census_total(strategies@.take(i as int));
            }
            match Species::classify(&strategies[i]) {
                Species::Explorer => counts.0 = counts.0 + 1,
                Species::Diplomat => counts.1 = counts.1 + 1,
                Species::Warrior => counts.2 = counts.2 + 1,
                Species::Hybrid => counts.3 = counts.3 + 1,
            }
            i = i + 1;
        }
        assert(strategies@.take(i as int) =~= strategies@);
        self.history.push(counts);
        counts
    }

    /// The dominant species of the latest census (ties go to the earlier of Explorer, Diplomat,
    /// Warrior, Hybrid), or `None` before any census.
    pub fn dominant(&self) -> (r: Option<Species>)
        ensures
            self.history@.len() == 0 ==> r is None,
            self.history@.len() > 0 ==> r == Some(dominant_of(self.history@.last())),
    {
        if self.history.len() == 0 {
            return None;
        }
        let last = self.history[self.history.len() - 1];
        let m01 = if last.0 >= last.1 { last.0 } else { last.1 };
        let m23 = if last.2 >= last.3 { last.2 } else { last.3 };
        let max = if m01 >= m23 { m01 } else { m23 };
        if max == last.0 {
            Some(Species::Explorer)
        } else if max == last.1 {
            Some(Species::Diplomat)
        } else if max == last.2 {
            Some(Species::Warrior)
        } else {
            Some(Species::Hybrid)
        }
    }

    /// How many species have members in the latest census; 0 before any census.
    pub fn diversity(&self) -> (r: usize)
        ensures
            self.history@.len() == 0 ==> r == 0,
            self.history@.len() > 0 ==> r == diversity_of(self.history@.last()),
    {
        if self.history.len() == 0 {
            return 0;
        }
        let last = self.history[self.history.len() - 1];
        let mut count: usize = 0;
        if last.0 > 0 {
            count = count + 1;
        }
        if last.1 > 0 {
            count = count + 1;
        }
        if last.2 > 0 {
            count = count + 1;
        }
        if last.3 > 0 {
            count = count + 1;
        }
        count
    }

    /// Number of generations tracked.
    pub fn generations(&self) -> (r: usize)
        ensures
            r == self.history@.len(),
    {
        self.history.len()
    }

    /// Whether the species composition has not changed over the last `n` censuses and more than
    /// `n` censuses were taken; an empty window is stable once any census was taken. `n` must be
    /// below `usize::MAX`.
    pub fn is_stable(&self, n: usize) -> (b: bool)
        requires
            n < usize::MAX,
        ensures
            b == stable_for(self.history@, n as nat),
    {
        let len = self.history.len();
        if len <= n {
            return false;
        }
        if n == 0 {
            return true;
        }
        let start = len - n;
        let first = self.history[start];
        let mut i: usize = start;
        while i < len
            invariant
                start <= i <= len,
                len == self.history@.len(),
                start == len - n,
                first == self.history@[start as int],
                forall|j: int| start <= j < i ==> #[trigger] self.history@[j] == first,
            decreases len - i,
        {
            let h = self.history[i];
            if h.0 != first.0 || h.1 != first.1 || h.2 != first.2 || h.3 != first.3 {
                return false;
            }
            i = i + 1;
        }
        true
    }
}

impl Default for SpeciesTracker {
    fn default() -> (r: Self)
        ensures
            r.history@ == Seq::<(usize, usize, usize, usize)>::empty(),
    {
        Self::new()
    }
}

/// A composition unchanged over the last `n` censuses is also unchanged over any shorter
/// non-empty window.
pub proof fn lemma_stable_for_shorter(h: Seq<(usize, usize, usize, usize)>, n: nat, m: nat)
    requires
        stable_for(h, n),
        1 <= m <= n,
    ensures
        stable_for(h, m),
{
    assert(h[h.len() - m] == h[h.len() - n]);
}

} // verus!
