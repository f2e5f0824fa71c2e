//! Counters of the outcomes of reconstruction attempts, overall and by the
//! bins and ranking of the weights that drove them.
use vstd::prelude::*;

verus! {

/// Number of weights that drive a reconstruction.
pub const WEIGHT_COUNT: usize = 6;

/// Number of bins per weight.
pub const BIN_COUNT: usize = 8;

/// How a reconstruction attempt ended.
#[derive(Clone, Copy, Debug, PartialEq, Eq, Structural)]
pub enum Outcome {
    Failed,
    Unchanged,
    Changed,
}

/// Attempts counted by outcome.
#[derive(Clone, Copy, Debug, PartialEq, Eq, Structural)]
pub struct OutcomeCounts {
    pub failed: u64,
    pub unchanged: u64,
    pub changed: u64,
}

/// `c` counts `outcome` once more than `old`, and the rest alike.
pub open spec fn counted(old: OutcomeCounts, c: OutcomeCounts, outcome: Outcome) -> bool {
    &&& c.failed == old.failed + (if outcome == Outcome::Failed { 1int } else { 0int })
    &&& c.unchanged == old.unchanged + (if outcome == Outcome::Unchanged { 1int } else { 0int })
    &&& c.changed == old.changed + (if outcome == Outcome::Changed { 1int } else { 0int })
}

/// No attempt counted.
pub open spec fn no_counts() -> OutcomeCounts {
    OutcomeCounts { failed: 0, unchanged: 0, changed: 0 }
}

/// There is room to count one more attempt of each outcome.
pub open spec fn counts_room(c: OutcomeCounts) -> bool {
    c.failed < u64::MAX && c.unchanged < u64::MAX && c.changed < u64::MAX
}

impl OutcomeCounts {
    /// No attempt counted.
    pub fn zero() -> (res: Self)
        ensures
            res.failed == 0 && res.unchanged == 0 && res.changed == 0,
    {
        OutcomeCounts { failed: 0, unchanged: 0, changed: 0 }
    }

    /// Counts one attempt.
    pub fn add(&mut self, outcome: Outcome)
        requires
            counts_room(*old(self)),
        ensures
            counted(*old(self), *final(self), outcome),
    {
        match outcome {
            Outcome::Failed => self.failed = self.failed + 1,
            Outcome::Unchanged => self.unchanged = self.unchanged + 1,
            Outcome::Changed => self.changed = self.changed + 1,
        }
    }

    /// All attempts counted.
    pub fn attempts(self) -> (res: u64)
        requires
            self.failed + self.unchanged + self.changed <= u64::MAX,
        ensures
            res == self.failed + self.unchanged + self.changed,
    {
        self.failed + self.unchanged + self.changed
    }
}

/// Counting an attempt adds one to the attempts.
pub proof fn lemma_add_counts_one_attempt(old: OutcomeCounts, c: OutcomeCounts, outcome: Outcome)
    requires
        counted(old, c, outcome),
    ensures
        c.failed + c.unchanged + c.changed == old.failed + old.unchanged + old.changed + 1,
{
}

/// Outcomes overall, per weight and bin, per pair of weights and pair of
/// bins, and per set of the two and of the three largest weights.
pub struct WeightStats {
    pub total: OutcomeCounts,
    pub marginal: Vec<OutcomeCounts>,
    pub pairs: Vec<OutcomeCounts>,
    pub top2: Vec<OutcomeCounts>,
    pub top3: Vec<OutcomeCounts>,
}

/// `n` empty counters.
fn zero_counts(n: usize) -> (res: Vec<OutcomeCounts>)
    ensures
        res@.len() == n,
        forall|i: int| 0 <= i < n ==> #[trigger] res@[i] == no_counts(),
{
    let mut v: Vec<OutcomeCounts> = Vec::new();
    let mut i: usize = 0;
    while i < n
        invariant
            i <= n,
            v@.len() == i,
            forall|q: int| 0 <= q < i ==> #[trigger] v@[q] == no_counts(),
        decreases n - i,
    {
        v.push(OutcomeCounts::zero());
        i += 1;
    }
    v
}

/// Index of the counter of weights `a < b` falling in bins `bin_a`, `bin_b`.
pub open spec fn pair_index(a: int, b: int, bin_a: int, bin_b: int) -> int {
    ((a * WEIGHT_COUNT + b) * BIN_COUNT + bin_a) * BIN_COUNT + bin_b
}

impl WeightStats {
    /// Empty statistics.
    pub fn new() -> (res: Self)
        ensures
            res.total == no_counts(),
            res.marginal@.len() == WEIGHT_COUNT * BIN_COUNT,
            res.pairs@.len() == WEIGHT_COUNT * WEIGHT_COUNT * BIN_COUNT * BIN_COUNT,
            res.top2@.len() == 64,
            res.top3@.len() == 64,
            forall|i: int| 0 <= i < res.marginal@.len() ==> #[trigger] res.marginal@[i] == no_counts(),
            forall|i: int| 0 <= i < res.pairs@.len() ==> #[trigger] res.pairs@[i] == no_counts(),
            forall|i: int| 0 <= i < res.top2@.len() ==> #[trigger] res.top2@[i] == no_counts(),
            forall|i: int| 0 <= i < res.top3@.len() ==> #[trigger] res.top3@[i] == no_counts(),
    {
        WeightStats {
            total: OutcomeCounts::zero(),
            marginal: zero_counts(WEIGHT_COUNT * BIN_COUNT),
            pairs: zero_counts(WEIGHT_COUNT * WEIGHT_COUNT * BIN_COUNT * BIN_COUNT),
            top2: zero_counts(64),
            top3: zero_counts(64),
        }
    }
}

/// The name of weight `i`.
pub open spec fn weight_name_view(i: int) -> Seq<char> {
    if i == 0 {
        "volume"@
    } else if i == 1 {
        "pref_spread"@
    } else if i == 2 {
        "limit_time_urgency"@
    } else if i == 3 {
        "slack_tightness"@
    } else if i == 4 {
        "current_penalty"@
    } else {
        "random"@
    }
}

/// The name of weight `i`.
pub fn weight_name(i: usize) -> (res: &'static str)
    requires
        i < WEIGHT_COUNT,
    ensures
        res@ == weight_name_view(i as int),
{
    if i == 0 {
        "volume"
    } else if i == 1 {
        "pref_spread"
    } else if i == 2 {
        "limit_time_urgency"
    } else if i == 3 {
        "slack_tightness"
    } else if i == 4 {
        "current_penalty"
    } else {
        "random"
    }
}

proof fn lemma_weight_names_nonempty()
    ensures
        forall|i: int| 0 <= i < WEIGHT_COUNT ==> (#[trigger] weight_name_view(i)).len() > 0,
{
    reveal_strlit("volume");
    reveal_strlit("pref_spread");
    reveal_strlit("limit_time_urgency");
    reveal_strlit("slack_tightness");
    reveal_strlit("current_penalty");
    reveal_strlit("random");
}

/// Bit `i` of `mask` is set.
pub open spec fn has_bit(mask: usize, i: usize) -> bool {
    mask & (1usize << i) != 0
}

/// The names of the weights among the first `n` whose bits are set in
/// `mask`, joined by `+`.
pub open spec fn mask_names(mask: usize, n: nat) -> Seq<char>
    decreases n,
{
    if n == 0 {
        Seq::empty()
    } else {
        let prev = mask_names(mask, (n - 1) as nat);
        if has_bit(mask, (n - 1) as usize) {
            if prev.len() == 0 {
                weight_name_view(n - 1)
            } else {
                prev + "+"@ + weight_name_view(n - 1)
            }
        } else {
            prev
        }
    }
}

/// The names of the weights whose bits are set in `mask`, joined by `+`.
pub fn mask_name(mask: usize) -> (res: String)
    ensures
        res@ == mask_names(mask, WEIGHT_COUNT as nat),
{
    let mut out = String::new();
    let mut any = false;
    let mut i: usize = 0;
    proof {
        lemma_weight_names_nonempty();
    }
    while i < WEIGHT_COUNT
        invariant
            i <= WEIGHT_COUNT,
            out@ == mask_names(mask, i as nat),
            any == (out@.len() > 0),
            forall|k: int| 0 <= k < WEIGHT_COUNT ==> (#[trigger] weight_name_view(k)).len() > 0,
        decreases WEIGHT_COUNT - i,
    {
        if mask & (1usize << i) != 0 {
            assert(weight_name_view(i as int).len() > 0);
            if any {
                out.append("+");
            }
            let name = weight_name(i);
            out.append(name);
            any = true;
        }
        i += 1;
    }
    out
}

/// Each weight falls in one of the bins.
pub open spec fn bins_ok(bins: Seq<usize>) -> bool {
    bins.len() == WEIGHT_COUNT && forall|i: int| 0 <= i < WEIGHT_COUNT ==> #[trigger] bins[i] < BIN_COUNT
}

/// Counter `j` of the marginals is that of a weight and the bin it fell in.
pub open spec fn marginal_hit(bins: Seq<usize>, j: int) -> bool {
    0 <= j < WEIGHT_COUNT * BIN_COUNT && bins[j / 8] == j % 8
}

/// Counter `j` of the pairs is that of two weights `a < b` and the bins
/// they fell in.
pub open spec fn pair_hit(bins: Seq<usize>, j: int) -> bool {
    &&& 0 <= j < WEIGHT_COUNT * WEIGHT_COUNT * BIN_COUNT * BIN_COUNT
    &&& j / 384 < (j / 64) % 6
    &&& bins[j / 384] == (j / 8) % 8
    &&& bins[(j / 64) % 6] == j % 8
}

/// The set of the weights ranked first and second.
pub open spec fn top2_mask(order: Seq<usize>) -> usize {
    (1usize << order[0]) | (1usize << order[1])
}

/// The set of the weights ranked first, second and third.
pub open spec fn top3_mask(order: Seq<usize>) -> usize {
    top2_mask(order) | (1usize << order[2])
}

/// `new` counts `outcome` once more than `old` at the counters that `hit`
/// picks, and is alike elsewhere.
pub open spec fn bumped(old: Seq<OutcomeCounts>, new: Seq<OutcomeCounts>, hit: spec_fn(int) -> bool, outcome: Outcome) -> bool {
    &&& new.len() == old.len()
    &&& forall|j: int| 0 <= j < old.len() ==> if hit(j) {
        counted(old[j], #[trigger] new[j], outcome)
    } else {
        new[j] == old[j]
    }
}

/// Every counter has room for one more attempt.
pub open spec fn all_room(v: Seq<OutcomeCounts>) -> bool {
    forall|j: int| 0 <= j < v.len() ==> counts_room(#[trigger] v[j])
}

proof fn lemma_marginal_index(i: int, x: int)
    requires
        0 <= i < 6,
        0 <= x < 8,
    ensures
        (i * 8 + x) / 8 == i,
        (i * 8 + x) % 8 == x,
        0 <= i * 8 + x < 48,
{
    assert((i * 8 + x) / 8 == i && (i * 8 + x) % 8 == x) by (nonlinear_arith)
        requires
            0 <= i < 6,
            0 <= x < 8,
    ;
}

proof fn lemma_marginal_decompose(j: int)
    requires
        0 <= j < 48,
    ensures
        j == (j / 8) * 8 + j % 8,
        0 <= j / 8 < 6,
        0 <= j % 8 < 8,
{
    assert(j == (j / 8) * 8 + j % 8 && 0 <= j / 8 < 6 && 0 <= j % 8 < 8) by (nonlinear_arith)
        requires
            0 <= j < 48,
    ;
}

proof fn lemma_pair_index(a: int, b: int, x: int, y: int)
    requires
        0 <= a < 6,
        0 <= b < 6,
        0 <= x < 8,
        0 <= y < 8,
    ensures
        ({
            let j = ((a * 6 + b) * 8 + x) * 8 + y;
            &&& 0 <= j < 2304
            &&& j / 384 == a
            &&& (j / 64) % 6 == b
            &&& (j / 8) % 8 == x
            &&& j % 8 == y
        }),
{
    let j = ((a * 6 + b) * 8 + x) * 8 + y;
    assert(j == a * 384 + b * 64 + x * 8 + y) by (nonlinear_arith)
        requires
            j == ((a * 6 + b) * 8 + x) * 8 + y,
    ;
    assert(0 <= j < 2304 && j / 384 == a && (j / 64) % 6 == b && (j / 8) % 8 == x && j % 8 == y) by (nonlinear_arith)
        requires
            j == a * 384 + b * 64 + x * 8 + y,
            0 <= a < 6,
            0 <= b < 6,
            0 <= x < 8,
            0 <= y < 8,
    ;
}

proof fn lemma_pair_decompose(j: int)
    requires
        0 <= j < 2304,
    ensures
        j == (((j / 384) * 6 + (j / 64) % 6) * 8 + (j / 8) % 8) * 8 + j % 8,
        0 <= j / 384 < 6,
        0 <= (j / 64) % 6 < 6,
        0 <= (j / 8) % 8 < 8,
        0 <= j % 8 < 8,
{
    assert(j == (((j / 384) * 6 + (j / 64) % 6) * 8 + (j / 8) % 8) * 8 + j % 8 && 0 <= j / 384 < 6) by (nonlinear_arith)
        requires
            0 <= j < 2304,
    ;
}

impl WeightStats {
    /// The counters have the sizes that `new` gives them.
    pub open spec fn wf(&self) -> bool {
        &&& self.marginal@.len() == WEIGHT_COUNT * BIN_COUNT
        &&& self.pairs@.len() == WEIGHT_COUNT * WEIGHT_COUNT * BIN_COUNT * BIN_COUNT
        &&& self.top2@.len() == 64
        &&& self.top3@.len() == 64
    }

    /// Every counter has room for one more attempt.
    pub open spec fn room(&self) -> bool {
        &&& counts_room(self.total)
        &&& all_room(self.marginal@)
        &&& all_room(self.pairs@)
        &&& all_room(self.top2@)
        &&& all_room(self.top3@)
    }

    /// Counts one attempt whose weights fell in `bins` and ranked as
    /// `order` (largest first): overall, for each weight and its bin, for
    /// each pair of weights and their bins, and for the sets of the two and
    /// of the three largest weights.
    pub fn record(&mut self, bins: &Vec<usize>, order: &Vec<usize>, outcome: Outcome)
        requires
            old(self).wf(),
            old(self).room(),
            bins_ok(bins@),
            order@.len() >= 3,
            forall|k: int| 0 <= k < 3 ==> #[trigger] order@[k] < WEIGHT_COUNT,
        ensures
            final(self).wf(),
            counted(old(self).total, final(self).total, outcome),
            bumped(old(self).marginal@, final(self).marginal@, |j: int| marginal_hit(bins@, j), outcome),
            bumped(old(self).pairs@, final(self).pairs@, |j: int| pair_hit(bins@, j), outcome),
            bumped(old(self).top2@, final(self).top2@, |j: int| j == top2_mask(order@), outcome),
            bumped(old(self).top3@, final(self).top3@, |j: int| j == top3_mask(order@), outcome),
    {
        self.total.add(outcome);
        let ghost m0 = self.marginal@;
        let ghost s1 = *self;
        let mut i: usize = 0;
        while i < WEIGHT_COUNT
            invariant
                i <= WEIGHT_COUNT,
                s1.wf(),
                all_room(s1.pairs@),
                all_room(s1.top2@),
                all_room(s1.top3@),
                self.total == s1.total,
                self.pairs == s1.pairs,
                self.top2 == s1.top2,
                self.top3 == s1.top3,
                bins_ok(bins@),
                m0.len() == 48,
                all_room(m0),
                self.marginal@.len() == 48,
                forall|j: int| 0 <= j < 48 ==> if j / 8 < i && bins@[j / 8] == j % 8 {
                    counted(m0[j], #[trigger] self.marginal@[j], outcome)
                } else {
                    self.marginal@[j] == m0[j]
                },
            decreases WEIGHT_COUNT - i,
        {
            let idx = i * BIN_COUNT + bins[i];
            proof {
                lemma_marginal_index(i as int, bins@[i as int] as int);
            }
            let mut c = self.marginal[idx];
            c.add(outcome);
            self.marginal.set(idx, c);
            proof {
                assert forall|j: int| 0 <= j < 48 implies if j / 8 < i + 1 && bins@[j / 8] == j % 8 {
                    counted(m0[j], #[trigger] self.marginal@[j], outcome)
                } else {
                    self.marginal@[j] == m0[j]
                } by {
                    lemma_marginal_decompose(j);
                }
            }
            i += 1;
        }
        proof {
            assert forall|j: int| 0 <= j < m0.len() implies if marginal_hit(bins@, j) {
                counted(m0[j], #[trigger] self.marginal@[j], outcome)
            } else {
                self.marginal@[j] == m0[j]
            } by {
                lemma_marginal_decompose(j);
            }
        }
        self.record_pairs(bins, outcome);
        let t2 = (1usize << order[0]) | (1usize << order[1]);
        let t3 = t2 | (1usize << order[2]);
        let o0 = order[0];
        let o1 = order[1];
        let o2 = order[2];
        assert(t2 < 64 && t3 < 64) by (bit_vector)
            requires
                o0 < 6,
                o1 < 6,
                o2 < 6,
                t2 == (1usize << o0) | (1usize << o1),
                t3 == t2 | (1usize << o2),
        ;
        let ghost a0 = self.top2@;
        let mut c2 = self.top2[t2];
        c2.add(outcome);
        self.top2.set(t2, c2);
        let ghost b0 = self.top3@;
        let mut c3 = self.top3[t3];
        c3.add(outcome);
        self.top3.set(t3, c3);
    }

    /// Counts one attempt in the counter of each pair of weights and the
    /// bins they fell in.
    fn record_pairs(&mut self, bins: &Vec<usize>, outcome: Outcome)
        requires
            old(self).pairs@.len() == 2304,
            all_room(old(self).pairs@),
            bins_ok(bins@),
        ensures
            final(self).total == old(self).total,
            final(self).marginal == old(self).marginal,
            final(self).top2 == old(self).top2,
            final(self).top3 == old(self).top3,
            bumped(old(self).pairs@, final(self).pairs@, |j: int| pair_hit(bins@, j), outcome),
    {
        let ghost p0 = self.pairs@;
        let mut a: usize = 0;
        while a < WEIGHT_COUNT
            invariant
                a <= WEIGHT_COUNT,
                bins_ok(bins@),
                p0.len() == 2304,
                all_room(p0),
                self.pairs@.len() == 2304,
                self.total == old(self).total,
                self.marginal == old(self).marginal,
                self.top2 == old(self).top2,
                self.top3 == old(self).top3,
                forall|j: int| 0 <= j < 2304 ==> if pair_hit(bins@, j) && j / 384 < a {
                    counted(p0[j], #[trigger] self.pairs@[j], outcome)
                } else {
                    self.pairs@[j] == p0[j]
                },
            decreases WEIGHT_COUNT - a,
        {
            let mut b: usize = a + 1;
            while b < WEIGHT_COUNT
                invariant
                    a < WEIGHT_COUNT,
                    a + 1 <= b <= WEIGHT_COUNT,
                    bins_ok(bins@),
                    p0.len() == 2304,
                    all_room(p0),
                    self.pairs@.len() == 2304,
                    self.total == old(self).total,
                    self.marginal == old(self).marginal,
                    self.top2 == old(self).top2,
                    self.top3 == old(self).top3,
                    forall|j: int| 0 <= j < 2304 ==> if pair_hit(bins@, j) && (j / 384 < a || (j / 384 == a && (j / 64) % 6 < b)) {
                        counted(p0[j], #[trigger] self.pairs@[j], outcome)
                    } else {
                        self.pairs@[j] == p0[j]
                    },
                decreases WEIGHT_COUNT - b,
            {
                let idx = ((a * WEIGHT_COUNT + b) * BIN_COUNT + bins[a]) * BIN_COUNT + bins[b];
                proof {
                    lemma_pair_index(a as int, b as int, bins@[a as int] as int, bins@[b as int] as int);
                }
                let mut c = self.pairs[idx];
                c.add(outcome);
                self.pairs.set(idx, c);
                proof {
                    assert forall|j: int| 0 <= j < 2304 implies if pair_hit(bins@, j) && (j / 384 < a || (j / 384 == a && (j / 64) % 6 < b + 1)) {
                        counted(p0[j], #[trigger] self.pairs@[j], outcome)
                    } else {
                        self.pairs@[j] == p0[j]
                    } by {
                        lemma_pair_decompose(j);
                    }
                }
                b += 1;
            }
            proof {
                assert forall|j: int| 0 <= j < 2304 implies if pair_hit(bins@, j) && j / 384 < a + 1 {
                    counted(p0[j], #[trigger] self.pairs@[j], outcome)
                } else {
                    self.pairs@[j] == p0[j]
                } by {
                    lemma_pair_decompose(j);
                }
            }
            a += 1;
        }
    }
}

} // verus!
