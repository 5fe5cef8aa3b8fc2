//! The cumulative distribution of a weight vector, and the search that maps a
//! draw onto a category.
//!
//! Entry `i` of the cumulative table is the weight of categories `0..=i`; over
//! the total weight it is the probability that a draw lands at or before
//! category `i`. The table is kept in integers, so its last entry over the
//! total is exactly one.
//!
//! A draw is a `u64` `x`, standing for the fraction `x / DRAW_SCALE` of the
//! unit interval, so every draw lies in `[0, 1)`.
use vstd::prelude::*;

verus! {

/// One past the largest draw: a draw `x` stands for `x / DRAW_SCALE`.
pub const DRAW_SCALE: u128 = 0x1_0000_0000_0000_0000;

/// The weight of categories `0..i` together.
pub open spec fn weight_before(w: Seq<usize>, i: int) -> int
    decreases i,
{
    if i <= 0 || w.len() < i {
        0
    } else {
        weight_before(w, i - 1) + w[i - 1]
    }
}

/// The weight of all categories together.
pub open spec fn total_weight(w: Seq<usize>) -> int {
    weight_before(w, w.len() as int)
}

/// Weights that a sampler can be built on: at least two categories, not all of
/// them weightless, and a total that fits a `usize`.
pub open spec fn valid_weights(w: Seq<usize>) -> bool {
    w.len() >= 2 && 0 < total_weight(w) <= usize::MAX
}

/// `c` is the cumulative table of `w`: entry `i` is the weight of `0..=i`.
pub open spec fn is_cumulative_of(c: Seq<usize>, w: Seq<usize>) -> bool {
    c.len() == w.len() && forall|i: int| 0 <= i < c.len() ==> c[i] == weight_before(w, i + 1)
}

/// The draw `x` falls at or below entry `i`: `x / DRAW_SCALE <= c[i] / c.last()`.
pub open spec fn covers(c: Seq<usize>, x: u64, i: int) -> bool {
    (x as int) * (c.last() as int) <= (c[i] as int) * (DRAW_SCALE as int)
}

/// `i` is the smallest index whose entry the draw `x` falls at or below.
pub open spec fn first_cover(c: Seq<usize>, x: u64, i: int) -> bool {
    &&& 0 <= i < c.len()
    &&& covers(c, x, i)
    &&& forall|j: int| 0 <= j < i ==> !covers(c, x, j)
}

/// The reason, if any, to refuse building a table on `w`; checked in this
/// order.
pub open spec fn refusal(w: Seq<usize>) -> Option<ConstructionError> {
    if w.len() < 2 {
        Some(ConstructionError::TooFewWeights)
    } else if total_weight(w) == 0 {
        Some(ConstructionError::ZeroTotalWeight)
    } else if total_weight(w) > usize::MAX {
        Some(ConstructionError::TotalWeightOverflow)
    } else {
        None
    }
}

/// Why construction refused a weight vector.
#[derive(Debug, Clone, Copy, PartialEq, Eq, Structural)]
pub enum ConstructionError {
    /// Fewer than two categories.
    TooFewWeights,
    /// Every weight is zero.
    ZeroTotalWeight,
    /// The weights add up to more than a `usize` holds.
    TotalWeightOverflow,
    /// The operating system gave no entropy to seed the random source.
    NoEntropy,
}

/// The prefix weights never shrink as the prefix grows.
pub proof fn lemma_weight_before_monotone(w: Seq<usize>, i: int, j: int)
    requires
        0 <= i <= j <= w.len(),
    ensures
        weight_before(w, i) <= weight_before(w, j),
    decreases j - i,
{
    if i < j {
        lemma_weight_before_monotone(w, i, j - 1);
    }
}

/// A cumulative table never decreases, and its last entry is the total
/// weight, so the last probability is exactly one.
pub proof fn lemma_cumulative_table(w: Seq<usize>, c: Seq<usize>)
    requires
        valid_weights(w),
        is_cumulative_of(c, w),
    ensures
        forall|i: int, j: int| 0 <= i <= j < c.len() ==> c[i] <= c[j],
        c.last() == total_weight(w),
{
    assert forall|i: int, j: int| 0 <= i <= j < c.len() implies c[i] <= c[j] by {
        lemma_weight_before_monotone(w, i + 1, j + 1);
    }
}


/// A weight vector together with its cumulative table.
pub struct DistributionTable {
    weights: Vec<usize>,
    cumulative: Vec<usize>,
}

impl DistributionTable {
    /// The weights the table was built from.
    pub closed spec fn weights_seq(&self) -> Seq<usize> {
        self.weights@
    }

    /// The cumulative table, entry `i` being the weight of `0..=i`.
    pub closed spec fn cumulative_seq(&self) -> Seq<usize> {
        self.cumulative@
    }

    /// Valid weights, and the cumulative table that belongs to them.
    pub open spec fn wf(&self) -> bool {
        &&& valid_weights(self.weights_seq())
        &&& is_cumulative_of(self.cumulative_seq(), self.weights_seq())
    }

    /// Builds the cumulative table of `weights`; refuses fewer than two
    /// categories, an all-zero weight vector, and a total that overflows.
    pub fn construct_probabilities(weights: Vec<usize>) -> (r: Result<DistributionTable, ConstructionError>)
        ensures
            match r {
                Ok(t) => {
                    &&& refusal(weights@) is None
                    &&& t.wf()
                    &&& t.weights_seq() == weights@
                    &&& forall|i: int, j: int|
                        0 <= i <= j < t.cumulative_seq().len() ==> t.cumulative_seq()[i]
                            <= t.cumulative_seq()[j]
                    &&& t.cumulative_seq().last() == total_weight(weights@)
                },
                Err(e) => refusal(weights@) == Some(e),
            },
            r is Ok <==> valid_weights(weights@),
    {
        if weights.len() < 2 {
            return Err(ConstructionError::TooFewWeights);
        }
        let mut cumulative: Vec<usize> = Vec::new();
        let mut sum: usize = 0;
        let mut i: usize = 0;
        while i < weights.len()
            invariant
                i <= weights.len(),
                sum == weight_before(weights@, i as int),
                cumulative@.len() == i,
                forall|k: int| 0 <= k < i ==> cumulative@[k] == weight_before(weights@, k + 1),
            decreases weights.len() - i,
        {
            match sum.checked_add(weights[i]) {
                Some(next) => {
                    sum = next;
                },
                None => {
                    proof {
                        lemma_weight_before_monotone(weights@, i + 1, weights@.len() as int);
                    }
                    return Err(ConstructionError::TotalWeightOverflow);
                },
            }
            cumulative.push(sum);
            i = i + 1;
        }
        if sum == 0 {
            return Err(ConstructionError::ZeroTotalWeight);
        }
        let t = DistributionTable { weights, cumulative };
        proof {
            lemma_cumulative_table(t.weights@, t.cumulative@);
        }
        Ok(t)
    }

    /// The number of categories.
    pub fn len(&self) -> (r: usize)
        ensures
            r == self.weights_seq().len(),
    {
        self.weights.len()
    }

    /// The weights the table was built from.
    pub fn weights(&self) -> (r: &Vec<usize>)
        ensures
            r@ == self.weights_seq(),
    {
        &self.weights
    }

    /// The cumulative table: entry `i` over the last entry is the probability
    /// of drawing a category at or before `i`.
    pub fn cumulative(&self) -> (r: &Vec<usize>)
        ensures
            r@ == self.cumulative_seq(),
    {
        &self.cumulative
    }

    /// The category that the draw `value` selects: the smallest index whose
    /// cumulative probability is at least `value / DRAW_SCALE`. A draw equal
    /// to an entry goes to that entry's category.
    pub fn choose_value(&self, value: u64) -> (r: usize)
        requires
            self.wf(),
        ensures
            first_cover(self.cumulative_seq(), value, r as int),
    {
        let ghost c = self.cumulative@;
        proof {
            lemma_cumulative_table(self.weights@, c);
        }
        let n = self.cumulative.len();
        let total = self.cumulative[n - 1];
        let scaled = scale_draw(value, total);
        if scaled <= scale_entry(self.cumulative[0]) {
            return 0;
        }
        let mut start_index: usize = 0;
        let mut end_index: usize = n;
        while end_index - start_index > 1
            invariant
                c == self.cumulative@,
                n == c.len(),
                n >= 2,
                total == c.last(),
                scaled == (value as int) * (total as int),
                forall|i: int, j: int| 0 <= i <= j < c.len() ==> c[i] <= c[j],
                start_index < end_index <= n,
                !covers(c, value, start_index as int),
                end_index < n ==> covers(c, value, end_index as int),
            decreases end_index - start_index,
        {
            let index = start_index + (end_index - start_index) / 2;
            if scaled > scale_entry(self.cumulative[index]) {
                start_index = index;
            } else {
                end_index = index;
            }
        }
        proof {
            assert((value as int) * (total as int) < (total as int) * (DRAW_SCALE as int)) by (nonlinear_arith)
                requires
                    value < DRAW_SCALE,
                    total > 0,
            {}
            assert(covers(c, value, n - 1));
            assert forall|j: int| 0 <= j < end_index implies !covers(c, value, j) by {
                assert(c[j] <= c[start_index as int]);
            }
        }
        end_index
    }
}

/// `value * total`, which fits a `u128`.
fn scale_draw(value: u64, total: usize) -> (r: u128)
    ensures
        r == (value as int) * (total as int),
{
    proof {
        assert((value as int) * (total as int) <= (u64::MAX as int) * (u64::MAX as int)) by (nonlinear_arith)
            requires
                value <= u64::MAX,
                total <= u64::MAX,
        {}
    }
    (value as u128) * (total as u128)
}

/// `entry * DRAW_SCALE`, which fits a `u128`.
fn scale_entry(entry: usize) -> (r: u128)
    ensures
        r == (entry as int) * (DRAW_SCALE as int),
{
    (entry as u128) * DRAW_SCALE
}

/// The two ends of the table: a draw at or below the first probability,
/// that one included, selects category 0; and where the last category has
/// weight, the largest draw, just below the last probability of one,
/// selects the last category.
pub proof fn lemma_boundaries(t: DistributionTable, x: u64, i: int)
    requires
        t.wf(),
        first_cover(t.cumulative_seq(), x, i),
    ensures
        (x as int) * (t.cumulative_seq().last() as int) <= (t.cumulative_seq()[0] as int)
            * (DRAW_SCALE as int) ==> i == 0,
        x == u64::MAX && t.weights_seq().last() > 0 ==> i == t.weights_seq().len() - 1,
{
    let c = t.cumulative_seq();
    let w = t.weights_seq();
    let n = c.len() as int;
    lemma_cumulative_table(w, c);
    if i > 0 {
        assert(!covers(c, x, 0));
    }
    if x == u64::MAX && w.last() > 0 {
        let total = c.last() as int;
        assert(c[n - 1] == c[n - 2] + w[n - 1]);
        assert((u64::MAX as int) * total > (c[n - 2] as int) * (DRAW_SCALE as int)) by (nonlinear_arith)
            requires
                c[n - 2] + 1 <= total,
                total <= usize::MAX,
                usize::MAX <= u64::MAX,
                DRAW_SCALE == u64::MAX + 1,
        {}
        if i < n - 1 {
            assert(c[i] <= c[n - 2]);
        }
    }
}

} // verus!
