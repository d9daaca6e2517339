//! Strategy vectors, their validation and generation, and the xorshift generator.
use vstd::prelude::*;

verus! {

/// A value lies in the ternary alphabet {0, 1, 2}.
pub open spec fn is_ternary(v: u8) -> bool {
    v <= 2
}

/// Every value of the sequence lies in the ternary alphabet.
pub open spec fn is_ternary_seq(s: Seq<u8>) -> bool {
    forall|i: int| 0 <= i < s.len() ==> is_ternary(#[trigger] s[i])
}

/// Whether `v` is one of 0, 1, 2.
pub fn valid_ternary(v: u8) -> (b: bool)
    ensures
        b == is_ternary(v),
{
    v == 0 || v == 1 || v == 2
}

/// One step of the xorshift64 generator (shifts 13, 7, 17).
pub open spec fn xorshift(s: u64) -> u64 {
    let a = s ^ (s << 13u64);
    let b = a ^ (a >> 7u64);
    b ^ (b << 17u64)
}

/// The state a seed starts the generator in: a zero seed is replaced by a fixed non-zero one.
pub open spec fn seed_state(seed: u64) -> u64 {
    if seed == 0 {
        0xDEAD_BEEF_CAFE_BABEu64
    } else {
        seed
    }
}

/// The state after `k` steps from state `s`.
pub open spec fn state_after(s: u64, k: nat) -> u64
    decreases k,
{
    if k == 0 {
        s
    } else {
        xorshift(state_after(s, (k - 1) as nat))
    }
}

/// The 32-bit draw made from state `s`: the low half of the next state.
pub open spec fn u32_draw(s: u64) -> u32 {
    xorshift(s) as u32
}

/// The 64-bit draw made from state `s`: two 32-bit draws, the first as the high half.
pub open spec fn u64_draw(s: u64) -> u64 {
    ((u32_draw(s) as u64) << 32u64) | (u32_draw(xorshift(s)) as u64)
}

/// A xorshift step never reaches zero from a non-zero state.
pub proof fn lemma_xorshift_nonzero(s: u64)
    requires
        s != 0,
    ensures
        xorshift(s) != 0,
{
    let a = s ^ (s << 13u64);
    assert(a != 0) by (bit_vector)
        requires
            s != 0,
            a == s ^ (s << 13u64),
    ;
    let b = a ^ (a >> 7u64);
    assert(b != 0) by (bit_vector)
        requires
            a != 0,
            b == a ^ (a >> 7u64),
    ;
    let c = b ^ (b << 17u64);
    assert(c != 0) by (bit_vector)
        requires
            b != 0,
            c == b ^ (b << 17u64),
    ;
}

/// Minimal xorshift64 pseudo-random generator.
pub struct SimpleRng {
    state: u64,
}

impl Clone for SimpleRng {
    fn clone(&self) -> (r: Self)
        ensures
            r@ == self@,
    {
        SimpleRng { state: self.state }
    }
}

impl View for SimpleRng {
    type V = u64;

    closed spec fn view(&self) -> u64 {
        self.state
    }
}

impl SimpleRng {
    /// A generator started from `seed`; a zero seed is replaced so that the state is never zero.
    pub fn from_seed(seed: u64) -> (r: Self)
        ensures
            r@ == seed_state(seed),
            r@ != 0,
    {
        SimpleRng { state: if seed == 0 { 0xDEAD_BEEF_CAFE_BABE } else { seed } }
    }

    /// Advance one xorshift step and return the low 32 bits of the new state.
    pub fn next_u32(&mut self) -> (r: u32)
        ensures
            final(self)@ == xorshift(old(self)@),
            r == u32_draw(old(self)@),
            old(self)@ != 0 ==> final(self)@ != 0,
    {
        proof {
            if self.state != 0 {
                lemma_xorshift_nonzero(self.state);
            }
        }
        self.state = self.state ^ (self.state << 13u64);
        self.state = self.state ^ (self.state >> 7u64);
        self.state = self.state ^ (self.state << 17u64);
        self.state as u32
    }

    /// Two 32-bit draws joined, the first as the high half.
    pub fn next_u64(&mut self) -> (r: u64)
        ensures
            final(self)@ == state_after(old(self)@, 2),
            r == u64_draw(old(self)@),
            old(self)@ != 0 ==> final(self)@ != 0,
    {
        let hi = self.next_u32() as u64;
        let lo = self.next_u32() as u64;
        proof {
            reveal_with_fuel(state_after, 3);
        }
        (hi << 32u64) | lo
    }
}


/// Whether every value of `strategy` is ternary: the check that admits a strategy into an agent.
pub fn is_ternary_strategy(strategy: &Vec<u8>) -> (b: bool)
    ensures
        b == is_ternary_seq(strategy@),
{
    let mut i: usize = 0;
    while i < strategy.len()
        invariant
            i <= strategy.len(),
            is_ternary_seq(strategy@.take(i as int)),
        decreases strategy.len() - i,
    {
        if !valid_ternary(strategy[i]) {
            assert(!is_ternary(strategy@[i as int]));
            return false;
        }
        assert(strategy@.take(i + 1) =~= strategy@.take(i as int).push(strategy@[i as int]));
        i = i + 1;
    }
    assert(strategy@.take(i as int) =~= strategy@);
    true
}

/// The common strategy length of a population, from the lengths of its agents' strategies:
/// `None` for no agents or for lengths that differ, else the shared length.
pub fn population_strategy_len(lens: &Vec<usize>) -> (r: Option<usize>)
    ensures
        lens@.len() == 0 ==> r is None,
        lens@.len() > 0 ==> r == (if forall|i: int| 0 <= i < lens@.len() ==> #[trigger] lens@[i] == lens@[0] {
            Some(lens@[0])
        } else {
            None::<usize>
        }),
{
    if lens.len() == 0 {
        return None;
    }
    let first = lens[0];
    let mut i: usize = 1;
    while i < lens.len()
        invariant
            1 <= i <= lens.len(),
            first == lens@[0],
            forall|j: int| 0 <= j < i ==> #[trigger] lens@[j] == first,
        decreases lens.len() - i,
    {
        if lens[i] != first {
            return None;
        }
        i = i + 1;
    }
    Some(first)
}

/// The ternary value drawn from state `s`: the 32-bit draw modulo 3.
pub open spec fn ternary_draw(s: u64) -> u8 {
    (u32_draw(s) % 3) as u8
}

/// `n` strategies of `strategy_len` values drawn from a generator seeded with `seed`:
/// value `j` of strategy `i` is the ternary draw from the state after `i * strategy_len + j` steps.
pub fn random_strategies(n: usize, strategy_len: usize, seed: u64) -> (r: Vec<Vec<u8>>)
    ensures
        r@.len() == n,
        forall|i: int| 0 <= i < n ==> (#[trigger] r@[i])@.len() == strategy_len,
        forall|i: int, j: int|
            0 <= i < n && 0 <= j < strategy_len ==> #[trigger] r@[i]@[j] == ternary_draw(
                state_after(seed_state(seed), (i * strategy_len + j) as nat),
            ),
        forall|i: int| 0 <= i < n ==> is_ternary_seq((#[trigger] r@[i])@),
{
    let mut rng = SimpleRng::from_seed(seed);
    let mut agents: Vec<Vec<u8>> = Vec::new();
    let mut a: usize = 0;
    let ghost mut steps: nat = 0;
    while a < n
        invariant
            a <= n,
            agents@.len() == a,
            steps == a * strategy_len,
            rng@ == state_after(seed_state(seed), steps),
            forall|i: int| 0 <= i < a ==> (#[trigger] agents@[i])@.len() == strategy_len,
            forall|i: int, j: int|
                0 <= i < a && 0 <= j < strategy_len ==> #[trigger] agents@[i]@[j]
                    == ternary_draw(state_after(seed_state(seed), (i * strategy_len + j) as nat)),
        decreases n - a,
    {
        let mut strategy: Vec<u8> = Vec::new();
        let mut j: usize = 0;
        while j < strategy_len
            invariant
                j <= strategy_len,
                strategy@.len() == j,
                rng@ == state_after(seed_state(seed), (steps + j) as nat),
                forall|k: int|
                    0 <= k < j ==> #[trigger] strategy@[k] == ternary_draw(
                        state_after(seed_state(seed), (steps + k) as nat),
                    ),
            decreases strategy_len - j,
        {
            let d = rng.next_u32();
            strategy.push((d % 3) as u8);
            j = j + 1;
        }
        proof {
            assert((a + 1) * strategy_len == a * strategy_len + strategy_len) by (nonlinear_arith);
            assert forall|i: int, k: int|
                0 <= i < a + 1 && 0 <= k < strategy_len implies #[trigger] agents@.push(
                    strategy,
                )[i]@[k] == ternary_draw(
                    state_after(seed_state(seed), (i * strategy_len + k) as nat),
                ) by {
                if i == a {
                    assert(agents@.push(strategy)[i] == strategy);
                } else {
                    assert(agents@.push(strategy)[i] == agents@[i]);
                }
            }
            steps = (steps + strategy_len) as nat;
        }
        agents.push(strategy);
        a = a + 1;
    }
    proof {
        assert forall|i: int| 0 <= i < n implies is_ternary_seq((#[trigger] agents@[i])@) by {
            assert forall|j: int| 0 <= j < agents@[i]@.len() implies is_ternary(
                #[trigger] agents@[i]@[j],
            ) by {
                assert(agents@[i]@[j] == ternary_draw(
                    state_after(seed_state(seed), (i * strategy_len + j) as nat),
                ));
            }
        }
    }
    agents
}


/// `order` lists positions of `keys` from the highest key to the lowest, each position once,
/// and positions with equal keys keep their relative order (a stable descending sort).
pub open spec fn is_stable_descending(keys: Seq<i64>, order: Seq<usize>) -> bool {
    &&& order.len() == keys.len()
    &&& forall|i: int| 0 <= i < order.len() ==> #[trigger] order[i] < keys.len()
    &&& forall|i: int, j: int|
        0 <= i < j < order.len() ==> #[trigger] order[i] != #[trigger] order[j]
    &&& forall|i: int, j: int|
        0 <= i < j < order.len() ==> keys[#[trigger] order[i] as int] >= keys[#[trigger] order[j] as int]
    &&& forall|i: int, j: int|
        0 <= i < j < order.len() && keys[#[trigger] order[i] as int] == keys[#[trigger] order[j] as int]
            ==> order[i] < order[j]
}

/// The sorted prefix built so far: the positions below `n`, in stable descending order.
spec fn sorted_prefix(keys: Seq<i64>, order: Seq<usize>, n: int) -> bool {
    &&& order.len() == n
    &&& forall|i: int| 0 <= i < order.len() ==> #[trigger] order[i] < n
    &&& forall|i: int, j: int|
        0 <= i < j < order.len() ==> #[trigger] order[i] != #[trigger] order[j]
    &&& forall|i: int, j: int|
        0 <= i < j < order.len() ==> keys[#[trigger] order[i] as int] >= keys[#[trigger] order[j] as int]
    &&& forall|i: int, j: int|
        0 <= i < j < order.len() && keys[#[trigger] order[i] as int] == keys[#[trigger] order[j] as int]
            ==> order[i] < order[j]
}

/// The order in which agents stand after sorting by fitness, highest first, stably:
/// `keys[i]` is the fitness key of agent `i`.
pub fn descending_order(keys: &Vec<i64>) -> (order: Vec<usize>)
    ensures
        is_stable_descending(keys@, order@),
{
    let mut order: Vec<usize> = Vec::new();
    let mut n: usize = 0;
    while n < keys.len()
        invariant
            n <= keys.len(),
            sorted_prefix(keys@, order@, n as int),
        decreases keys.len() - n,
    {
        let k = keys[n];
        let mut p: usize = 0;
        while p < order.len() && keys[order[p]] >= k
            invariant
                p <= order.len(),
                order@.len() == n,
                sorted_prefix(keys@, order@, n as int),
                n < keys.len(),
                k == keys@[n as int],
                forall|q: int| 0 <= q < p ==> keys@[#[trigger] order@[q] as int] >= k,
            decreases order.len() - p,
        {
            p = p + 1;
        }
        let ghost old_order = order@;
        order.insert(p, n);
        proof {
            let o = order@;
            assert(o == old_order.insert(p as int, n));
            assert forall|i: int| 0 <= i < o.len() implies #[trigger] o[i] < n + 1 by {
                if i < p {
                    assert(o[i] == old_order[i]);
                } else if i > p {
                    assert(o[i] == old_order[i - 1]);
                }
            }
            assert forall|i: int, j: int| 0 <= i < j < o.len() implies #[trigger] o[i] != #[trigger] o[j] by {
                if i < p && j < p {
                    assert(o[i] == old_order[i] && o[j] == old_order[j]);
                } else if i < p && j == p {
                    assert(o[i] == old_order[i]);
                } else if i < p && j > p {
                    assert(o[i] == old_order[i] && o[j] == old_order[j - 1]);
                } else if i == p {
                    assert(o[j] == old_order[j - 1]);
                } else {
                    assert(o[i] == old_order[i - 1] && o[j] == old_order[j - 1]);
                }
            }
            assert forall|i: int, j: int| 0 <= i < j < o.len() implies keys@[#[trigger] o[i] as int]
                >= keys@[#[trigger] o[j] as int] by {
                if p < old_order.len() {
                    assert(keys@[old_order[p as int] as int] < k);
                }
                if i < p && j < p {
                    assert(o[i] == old_order[i] && o[j] == old_order[j]);
                } else if i < p && j == p {
                    assert(o[i] == old_order[i]);
                } else if i < p && j > p {
                    assert(o[i] == old_order[i] && o[j] == old_order[j - 1]);
                } else if i == p {
                    assert(o[j] == old_order[j - 1]);
                    if j - 1 > p {
                        assert(keys@[old_order[p as int] as int] >= keys@[old_order[j - 1] as int]);
                    }
                } else {
                    assert(o[i] == old_order[i - 1] && o[j] == old_order[j - 1]);
                }
            }
            assert forall|i: int, j: int|
                0 <= i < j < o.len() && keys@[#[trigger] o[i] as int] == keys@[#[trigger] o[j] as int]
                implies o[i] < o[j] by {
                if p < old_order.len() {
                    assert(keys@[old_order[p as int] as int] < k);
                }
                if i < p && j < p {
                    assert(o[i] == old_order[i] && o[j] == old_order[j]);
                } else if i < p && j == p {
                    assert(o[i] == old_order[i]);
                } else if i < p && j > p {
                    assert(o[i] == old_order[i] && o[j] == old_order[j - 1]);
                } else if i == p {
                    assert(o[j] == old_order[j - 1]);
                    if j - 1 > p {
                        assert(keys@[old_order[p as int] as int] >= keys@[old_order[j - 1] as int]);
                    }
                } else {
                    assert(o[i] == old_order[i - 1] && o[j] == old_order[j - 1]);
                }
            }
        }
        n = n + 1;
    }
    order
}

/// `n` distinct positions below `n` are all the positions below `n`.
pub proof fn lemma_distinct_positions_cover(o: Seq<usize>, n: nat, v: usize)
    requires
        o.len() == n,
        forall|i: int| 0 <= i < o.len() ==> #[trigger] o[i] < n,
        forall|i: int, j: int| 0 <= i < j < o.len() ==> #[trigger] o[i] != #[trigger] o[j],
        v < n,
    ensures
        o.contains(v),
{
    let oi = o.map_values(|x: usize| x as int);
    assert(oi.no_duplicates()) by {
        assert forall|i: int, j: int| 0 <= i < oi.len() && 0 <= j < oi.len() && i != j implies oi[i] != oi[j] by {
            if i < j {
                assert(o[i] != o[j]);
            } else {
                assert(o[j] != o[i]);
            }
        }
    }
    oi.unique_seq_to_set();
    let range = vstd::set_lib::set_int_range(0, n as int);
    vstd::set_lib::lemma_int_range(0, n as int);
    assert(oi.to_set().subset_of(range)) by {
        assert forall|x: int| oi.to_set().contains(x) implies range.contains(x) by {
            let i = choose|i: int| 0 <= i < oi.len() && oi[i] == x;
            assert(o[i] < n);
        }
    }
    vstd::set_lib::lemma_subset_equality(oi.to_set(), range);
    assert(range.contains(v as int));
    assert(oi.to_set().contains(v as int));
    let i = choose|i: int| 0 <= i < oi.len() && oi[i] == v as int;
    assert(o[i] == v);
}

/// A stable descending order is unique: the contract of `descending_order` determines its result.
pub proof fn lemma_stable_descending_unique(keys: Seq<i64>, o1: Seq<usize>, o2: Seq<usize>)
    requires
        is_stable_descending(keys, o1),
        is_stable_descending(keys, o2),
    ensures
        o1 == o2,
{
    let n = keys.len();
    assert forall|k: int| 0 <= k < n implies o1[k] == o2[k] by {
        lemma_stable_descending_prefix(keys, o1, o2, (k + 1) as nat);
    }
    assert(o1 =~= o2);
}

proof fn lemma_stable_descending_prefix(keys: Seq<i64>, o1: Seq<usize>, o2: Seq<usize>, k: nat)
    requires
        is_stable_descending(keys, o1),
        is_stable_descending(keys, o2),
        k <= keys.len(),
    ensures
        forall|i: int| 0 <= i < k ==> #[trigger] o1[i] == o2[i],
    decreases k,
{
    if k > 0 {
        let m = k - 1;
        lemma_stable_descending_prefix(keys, o1, o2, m as nat);
        let x = o1[m];
        let y = o2[m];
        if x != y {
            lemma_distinct_positions_cover(o1, keys.len(), y);
            lemma_distinct_positions_cover(o2, keys.len(), x);
            let j = choose|j: int| 0 <= j < o1.len() && o1[j] == y;
            let l = choose|l: int| 0 <= l < o2.len() && o2[l] == x;
            if j < m {
                assert(o2[j] == y);
            }
            if l < m {
                assert(o1[l] == x);
            }
            assert(j > m && l > m);
            assert(keys[x as int] >= keys[y as int]);
            assert(keys[y as int] >= keys[x as int]);
            assert(x < y);
            assert(y < x);
        }
    }
}

/// The position of the best agent: the last of those with the highest key.
pub fn best_index(keys: &Vec<i64>) -> (r: usize)
    requires
        keys@.len() > 0,
    ensures
        r < keys@.len(),
        forall|j: int| 0 <= j < keys@.len() ==> #[trigger] keys@[j] <= keys@[r as int],
        forall|j: int| r < j < keys@.len() ==> #[trigger] keys@[j] < keys@[r as int],
{
    let mut best: usize = 0;
    let mut i: usize = 1;
    while i < keys.len()
        invariant
            1 <= i <= keys@.len(),
            best < i,
            forall|j: int| 0 <= j < i ==> #[trigger] keys@[j] <= keys@[best as int],
            forall|j: int| best < j < i ==> #[trigger] keys@[j] < keys@[best as int],
        decreases keys.len() - i,
    {
        if keys[i] >= keys[best] {
            best = i;
        }
        i = i + 1;
    }
    best
}

/// The position of the worst agent: the first of those with the lowest key.
pub fn worst_index(keys: &Vec<i64>) -> (r: usize)
    requires
        keys@.len() > 0,
    ensures
        r < keys@.len(),
        forall|j: int| 0 <= j < keys@.len() ==> #[trigger] keys@[j] >= keys@[r as int],
        forall|j: int| 0 <= j < r ==> #[trigger] keys@[j] > keys@[r as int],
{
    let mut worst: usize = 0;
    let mut i: usize = 1;
    while i < keys.len()
        invariant
            1 <= i <= keys@.len(),
            worst < i,
            forall|j: int| 0 <= j < i ==> #[trigger] keys@[j] >= keys@[worst as int],
            forall|j: int| 0 <= j < worst ==> #[trigger] keys@[j] > keys@[worst as int],
        decreases keys.len() - i,
    {
        if keys[i] < keys[worst] {
            worst = i;
        }
        i = i + 1;
    }
    worst
}

} // verus!
