//! A distribution table together with the random source that feeds it.
use crate::source::RandomSource;
use crate::table::{first_cover, refusal, ConstructionError, DistributionTable};
use vstd::prelude::*;

verus! {

/// Draws categories at random, each with probability its weight over the
/// total weight.
pub struct Sorteador {
    source: RandomSource,
    table: DistributionTable,
}

/// The draw `x` selects category `i` of `t`.
pub open spec fn selects(t: DistributionTable, x: u64, i: usize) -> bool {
    first_cover(t.cumulative_seq(), x, i as int)
}

/// `d` is `d0` followed by `n` more draws.
pub open spec fn extends_by(d0: Seq<u64>, d: Seq<u64>, n: int) -> bool {
    d.len() == d0.len() + n && d.subrange(0, d0.len() as int) == d0
}

impl Sorteador {
    /// The table the sampler draws from.
    pub closed spec fn distribution(&self) -> DistributionTable {
        self.table
    }

    /// Every raw draw taken from the random source so far, oldest first.
    pub closed spec fn draws(&self) -> Seq<u64> {
        self.source.draws()
    }

    /// The table is well formed: valid weights and their cumulative table.
    pub open spec fn wf(&self) -> bool {
        self.distribution().wf()
    }

    /// The number of categories.
    pub open spec fn n_categories(&self) -> nat {
        self.distribution().weights_seq().len()
    }

    /// A sampler over `given_weights`, seeded by the operating system. The
    /// weights are checked first; `NoEntropy` comes only for valid weights.
    pub fn new(given_weights: Vec<usize>) -> (r: Result<Sorteador, ConstructionError>)
        ensures
            match r {
                Ok(s) => {
                    &&& refusal(given_weights@) is None
                    &&& s.wf()
                    &&& s.distribution().weights_seq() == given_weights@
                    &&& s.draws().len() == 0
                },
                Err(ConstructionError::NoEntropy) => refusal(given_weights@) is None,
                Err(e) => refusal(given_weights@) == Some(e),
            },
    {
        match DistributionTable::construct_probabilities(given_weights) {
            Ok(table) => match RandomSource::from_os() {
                Some(source) => Ok(Sorteador { source, table }),
                None => Err(ConstructionError::NoEntropy),
            },
            Err(e) => Err(e),
        }
    }

    /// A sampler over `given_weights` whose draws are fixed by `seed`.
    pub fn with_seed(given_weights: Vec<usize>, seed: u64) -> (r: Result<Sorteador, ConstructionError>)
        ensures
            match r {
                Ok(s) => {
                    &&& refusal(given_weights@) is None
                    &&& s.wf()
                    &&& s.distribution().weights_seq() == given_weights@
                    &&& s.draws().len() == 0
                },
                Err(e) => refusal(given_weights@) == Some(e),
            },
    {
        match DistributionTable::construct_probabilities(given_weights) {
            Ok(table) => Ok(Sorteador { source: RandomSource::seeded(seed), table }),
            Err(e) => Err(e),
        }
    }

    /// The table the sampler draws from.
    pub fn table(&self) -> (r: &DistributionTable)
        ensures
            *r == self.distribution(),
    {
        &self.table
    }

    /// Draws one category: takes exactly one uniform draw from the random
    /// source and returns the category that draw selects. The table is left
    /// as it was.
    pub fn sample(&mut self) -> (r: usize)
        requires
            old(self).wf(),
        ensures
            final(self).wf(),
            final(self).distribution() == old(self).distribution(),
            final(self).draws().len() == old(self).draws().len() + 1,
            final(self).draws().drop_last() == old(self).draws(),
            r < old(self).n_categories(),
            selects(old(self).distribution(), final(self).draws().last(), r),
    {
        let value = self.source.next();
        let r = self.table.choose_value(value);
        proof {
            assert(self.draws().drop_last() =~= old(self).draws());
        }
        r
    }
}

} // verus!
