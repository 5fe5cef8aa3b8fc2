//! Statistical self-checks: run a sampler many times and count outcomes.
//!
//! Each check takes a fixed number of draws from the sampler's random
//! source, and its count is stated over the categories that exactly those
//! draws select.
use crate::sampler::{extends_by, selects, Sorteador};
use crate::table::DistributionTable;
use vstd::prelude::*;

verus! {

/// All three draws of a trial are equal.
pub open spec fn is_trio(t: (usize, usize, usize)) -> bool {
    t.0 == t.1 && t.1 == t.2
}

/// Each of the two pairs of a trial is a matching pair; the two pairs may
/// match on different categories.
pub open spec fn is_two_pairs(t: (usize, usize, usize, usize)) -> bool {
    t.0 == t.1 && t.2 == t.3
}

/// The number of trials that are trios.
pub open spec fn trio_count(trials: Seq<(usize, usize, usize)>) -> nat
    decreases trials.len(),
{
    if trials.len() == 0 {
        0
    } else {
        trio_count(trials.drop_last()) + if is_trio(trials.last()) { 1nat } else { 0nat }
    }
}

/// The number of trials that are two pairs.
pub open spec fn two_pairs_count(trials: Seq<(usize, usize, usize, usize)>) -> nat
    decreases trials.len(),
{
    if trials.len() == 0 {
        0
    } else {
        two_pairs_count(trials.drop_last()) + if is_two_pairs(trials.last()) { 1nat } else { 0nat }
    }
}

/// The number of categories in `d` that are `v`.
pub open spec fn occurrences(d: Seq<usize>, v: int) -> nat
    decreases d.len(),
{
    if d.len() == 0 {
        0
    } else {
        occurrences(d.drop_last(), v) + if d.last() == v { 1nat } else { 0nat }
    }
}

/// The three raw draws from `start` on in `d` select the categories of `trial`.
pub open spec fn trio_drawn(t: DistributionTable, d: Seq<u64>, start: int, trial: (usize, usize, usize)) -> bool {
    &&& selects(t, d[start], trial.0)
    &&& selects(t, d[start + 1], trial.1)
    &&& selects(t, d[start + 2], trial.2)
}

/// The four raw draws from `start` on in `d` select the categories of `trial`.
pub open spec fn two_pairs_drawn(
    t: DistributionTable,
    d: Seq<u64>,
    start: int,
    trial: (usize, usize, usize, usize),
) -> bool {
    &&& selects(t, d[start], trial.0)
    &&& selects(t, d[start + 1], trial.1)
    &&& selects(t, d[start + 2], trial.2)
    &&& selects(t, d[start + 3], trial.3)
}

/// A sequence that starts with `d` agrees with `d` on each of its positions.
proof fn lemma_prefix_kept(d: Seq<u64>, e: Seq<u64>)
    requires
        d.len() <= e.len(),
        e.subrange(0, d.len() as int) == d,
    ensures
        forall|j: int| 0 <= j < d.len() ==> e[j] == d[j],
{
    assert forall|j: int| 0 <= j < d.len() implies e[j] == d[j] by {
        assert(e.subrange(0, d.len() as int)[j] == e[j]);
    }
}

/// Draws three categories from `sorteador`: the draws taken are the last
/// three of its record, in order.
fn draw_trio(sorteador: &mut Sorteador) -> (r: (usize, usize, usize))
    requires
        old(sorteador).wf(),
    ensures
        final(sorteador).wf(),
        final(sorteador).distribution() == old(sorteador).distribution(),
        extends_by(old(sorteador).draws(), final(sorteador).draws(), 3),
        trio_drawn(old(sorteador).distribution(), final(sorteador).draws(), old(sorteador).draws().len() as int, r),
{
    let ghost d0 = sorteador.draws();
    let a = sorteador.sample();
    let ghost d1 = sorteador.draws();
    let b = sorteador.sample();
    let ghost d2 = sorteador.draws();
    let c = sorteador.sample();
    proof {
        let d3 = sorteador.draws();
        let n = d0.len() as int;
        assert(d3[n] == d2[n] && d2[n] == d1[n]);
        assert(d3[n + 1] == d2[n + 1]);
        assert(d3.subrange(0, n) =~= d0) by {
            assert forall|j: int| 0 <= j < n implies d3[j] == d0[j] by {
                assert(d3[j] == d2[j] && d2[j] == d1[j] && d1[j] == d0[j]);
            }
        }
    }
    (a, b, c)
}

/// Runs `n_iterations` trials of three draws each and counts the trials in
/// which all three draws are equal.
pub fn compute_trios(sorteador: &mut Sorteador, n_iterations: usize) -> (r: usize)
    requires
        old(sorteador).wf(),
    ensures
        final(sorteador).wf(),
        final(sorteador).distribution() == old(sorteador).distribution(),
        r <= n_iterations,
        extends_by(old(sorteador).draws(), final(sorteador).draws(), 3 * n_iterations),
        exists|trials: Seq<(usize, usize, usize)>|
            {
                &&& trials.len() == n_iterations
                &&& forall|k: int|
                    0 <= k < n_iterations ==> trio_drawn(
                        old(sorteador).distribution(),
                        final(sorteador).draws(),
                        old(sorteador).draws().len() + 3 * k,
                        #[trigger] trials[k],
                    )
                &&& r == trio_count(trials)
            },
{
    let ghost t = sorteador.distribution();
    let ghost d0 = sorteador.draws();
    let ghost base = d0.len() as int;
    let ghost mut trials: Seq<(usize, usize, usize)> = Seq::empty();
    proof {
        assert(d0.subrange(0, base) =~= d0);
    }
    let mut count: usize = 0;
    let mut i: usize = 0;
    while i < n_iterations
        invariant
            sorteador.wf(),
            sorteador.distribution() == t,
            base == d0.len(),
            i <= n_iterations,
            extends_by(d0, sorteador.draws(), 3 * i),
            trials.len() == i,
            count <= i,
            count == trio_count(trials),
            forall|k: int|
                0 <= k < i ==> trio_drawn(t, sorteador.draws(), base + 3 * k, #[trigger] trials[k]),
        decreases n_iterations - i,
    {
        let ghost before = sorteador.draws();
        let results = draw_trio(sorteador);
        proof {
            let after = sorteador.draws();
            lemma_prefix_kept(before, after);
            lemma_prefix_kept(d0, before);
            assert(after.subrange(0, base) =~= d0);
            let prev = trials;
            trials = trials.push(results);
            assert(trials.drop_last() == prev);
            assert forall|k: int| 0 <= k < i + 1 implies trio_drawn(t, after, base + 3 * k, #[trigger] trials[k]) by {
                if k < i {
                    assert(trio_drawn(t, before, base + 3 * k, prev[k]));
                }
            }
        }
        if results.0 == results.1 && results.1 == results.2 {
            count = count + 1;
        }
        i = i + 1;
    }
    count
}

/// Draws two pairs of categories from `sorteador`: the draws taken are the
/// last four of its record, in order.
fn draw_two_pairs(sorteador: &mut Sorteador) -> (r: (usize, usize, usize, usize))
    requires
        old(sorteador).wf(),
    ensures
        final(sorteador).wf(),
        final(sorteador).distribution() == old(sorteador).distribution(),
        extends_by(old(sorteador).draws(), final(sorteador).draws(), 4),
        two_pairs_drawn(old(sorteador).distribution(), final(sorteador).draws(), old(sorteador).draws().len() as int, r),
{
    let ghost d0 = sorteador.draws();
    let first_pair = draw_pair(sorteador);
    let ghost d2 = sorteador.draws();
    let second_pair = draw_pair(sorteador);
    proof {
        let d4 = sorteador.draws();
        let n = d0.len() as int;
        lemma_prefix_kept(d2, d4);
        lemma_prefix_kept(d0, d2);
        assert(d4.subrange(0, n) =~= d0);
    }
    (first_pair.0, first_pair.1, second_pair.0, second_pair.1)
}

/// Draws a pair of categories from `sorteador`: the draws taken are the last
/// two of its record, in order.
fn draw_pair(sorteador: &mut Sorteador) -> (r: (usize, usize))
    requires
        old(sorteador).wf(),
    ensures
        final(sorteador).wf(),
        final(sorteador).distribution() == old(sorteador).distribution(),
        extends_by(old(sorteador).draws(), final(sorteador).draws(), 2),
        selects(old(sorteador).distribution(), final(sorteador).draws()[old(sorteador).draws().len() as int], r.0),
        selects(old(sorteador).distribution(), final(sorteador).draws()[old(sorteador).draws().len() + 1int], r.1),
{
    let ghost d0 = sorteador.draws();
    let a = sorteador.sample();
    let ghost d1 = sorteador.draws();
    let b = sorteador.sample();
    proof {
        let d2 = sorteador.draws();
        let n = d0.len() as int;
        assert(d2[n] == d1[n]);
        assert(d2.subrange(0, n) =~= d0) by {
            assert forall|j: int| 0 <= j < n implies d2[j] == d0[j] by {
                assert(d2[j] == d1[j] && d1[j] == d0[j]);
            }
        }
    }
    (a, b)
}

/// Runs `n_iterations` trials of two pairs of draws each and counts the
/// trials in which both pairs match, whatever category each matches on.
pub fn compute_two_pairs(sorteador: &mut Sorteador, n_iterations: usize) -> (r: usize)
    requires
        old(sorteador).wf(),
    ensures
        final(sorteador).wf(),
        final(sorteador).distribution() == old(sorteador).distribution(),
        r <= n_iterations,
        extends_by(old(sorteador).draws(), final(sorteador).draws(), 4 * n_iterations),
        exists|trials: Seq<(usize, usize, usize, usize)>|
            {
                &&& trials.len() == n_iterations
                &&& forall|k: int|
                    0 <= k < n_iterations ==> two_pairs_drawn(
                        old(sorteador).distribution(),
                        final(sorteador).draws(),
                        old(sorteador).draws().len() + 4 * k,
                        #[trigger] trials[k],
                    )
                &&& r == two_pairs_count(trials)
            },
{
    let ghost t = sorteador.distribution();
    let ghost d0 = sorteador.draws();
    let ghost base = d0.len() as int;
    let ghost mut trials: Seq<(usize, usize, usize, usize)> = Seq::empty();
    proof {
        assert(d0.subrange(0, base) =~= d0);
    }
    let mut count: usize = 0;
    let mut i: usize = 0;
    while i < n_iterations
        invariant
            sorteador.wf(),
            sorteador.distribution() == t,
            base == d0.len(),
            i <= n_iterations,
            extends_by(d0, sorteador.draws(), 4 * i),
            trials.len() == i,
            count <= i,
            count == two_pairs_count(trials),
            forall|k: int|
                0 <= k < i ==> two_pairs_drawn(t, sorteador.draws(), base + 4 * k, #[trigger] trials[k]),
        decreases n_iterations - i,
    {
        let ghost before = sorteador.draws();
        let results = draw_two_pairs(sorteador);
        proof {
            let after = sorteador.draws();
            lemma_prefix_kept(before, after);
            lemma_prefix_kept(d0, before);
            assert(after.subrange(0, base) =~= d0);
            let prev = trials;
            trials = trials.push(results);
            assert(trials.drop_last() == prev);
            assert forall|k: int| 0 <= k < i + 1 implies two_pairs_drawn(t, after, base + 4 * k, #[trigger] trials[k]) by {
                if k < i {
                    assert(two_pairs_drawn(t, before, base + 4 * k, prev[k]));
                }
            }
        }
        if results.0 == results.1 && results.2 == results.3 {
            count = count + 1;
        }
        i = i + 1;
    }
    count
}

/// A draw count never exceeds the number of draws.
proof fn lemma_occurrences_bound(d: Seq<usize>, v: int)
    ensures
        occurrences(d, v) <= d.len(),
    decreases d.len(),
{
    if d.len() > 0 {
        lemma_occurrences_bound(d.drop_last(), v);
    }
}

/// Takes `n_iterations` draws and tallies the categories they select: entry
/// `i` of the result is how many of those draws selected category `i`.
pub fn count_draws(sorteador: &mut Sorteador, n_iterations: usize) -> (r: Vec<usize>)
    requires
        old(sorteador).wf(),
    ensures
        final(sorteador).wf(),
        final(sorteador).distribution() == old(sorteador).distribution(),
        r@.len() == old(sorteador).n_categories(),
        extends_by(old(sorteador).draws(), final(sorteador).draws(), n_iterations as int),
        exists|chosen: Seq<usize>|
            {
                &&& chosen.len() == n_iterations
                &&& forall|k: int|
                    0 <= k < n_iterations ==> selects(
                        old(sorteador).distribution(),
                        final(sorteador).draws()[old(sorteador).draws().len() + k],
                        #[trigger] chosen[k],
                    )
                &&& forall|i: int| 0 <= i < r@.len() ==> r@[i] == occurrences(chosen, i)
            },
{
    let ghost t = sorteador.distribution();
    let ghost d0 = sorteador.draws();
    let ghost base = d0.len() as int;
    let n = sorteador.table().len();
    let mut result: Vec<usize> = Vec::new();
    let mut j: usize = 0;
    while j < n
        invariant
            j <= n,
            result@.len() == j,
            forall|i: int| 0 <= i < j ==> result@[i] == 0,
        decreases n - j,
    {
        result.push(0);
        j = j + 1;
    }
    let ghost mut chosen: Seq<usize> = Seq::empty();
    proof {
        assert(d0.subrange(0, base) =~= d0);
    }
    let mut k: usize = 0;
    while k < n_iterations
        invariant
            sorteador.wf(),
            sorteador.distribution() == t,
            n == t.weights_seq().len(),
            base == d0.len(),
            k <= n_iterations,
            extends_by(d0, sorteador.draws(), k as int),
            chosen.len() == k,
            forall|m: int| 0 <= m < k ==> selects(t, sorteador.draws()[base + m], #[trigger] chosen[m]),
            result@.len() == n,
            forall|i: int| 0 <= i < n ==> result@[i] == occurrences(chosen, i),
        decreases n_iterations - k,
    {
        let ghost before = sorteador.draws();
        let sample = sorteador.sample();
        proof {
            lemma_occurrences_bound(chosen, sample as int);
        }
        result.set(sample, result[sample] + 1);
        proof {
            let after = sorteador.draws();
            assert(after.subrange(0, before.len() as int) =~= before);
            lemma_prefix_kept(before, after);
            lemma_prefix_kept(d0, before);
            assert(after.subrange(0, base) =~= d0);
            let prev = chosen;
            chosen = chosen.push(sample);
            assert(chosen.drop_last() == prev);
            assert forall|m: int| 0 <= m < k + 1 implies selects(t, after[base + m], #[trigger] chosen[m]) by {
                if m < k {
                    assert(selects(t, before[base + m], prev[m]));
                }
            }
            assert forall|i: int| 0 <= i < n implies result@[i] == occurrences(chosen, i) by {
                assert(occurrences(chosen, i) == occurrences(prev, i) + if sample == i { 1nat } else { 0nat });
            }
        }
        k = k + 1;
    }
    result
}

} // verus!
