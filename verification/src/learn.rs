use crate::error::Error;
use crate::feature::{Feature, Features, Weight, Weights, WeightsMap};
use crate::simulator::Simulator;
use crate::train::{
    is_generation, kept_statistics, model_views, paired, raw_deviation, raw_mean, results_ok,
    EvalResult, FITNESS_LIMIT, INITIAL_DEVIATION, MODELS_PER_GEN,
};
use vstd::prelude::*;

verus! {

/// Number of pieces that a model plays to be tried.
pub const TEST_ITERATIONS: usize = 50;

/// Learns the weights of the six features in their usual order: the
/// models of a generation are tried by short games, and the weights and
/// spreads become the means and deviations of the best.
pub struct Learner {
    weights: Vec<Weight>,
    st_dev: Vec<u64>,
}

/// Tries the weights by a short game and returns its score.
fn test(weights: Weights) -> (score: u128)
    ensures
        score <= FITNESS_LIMIT,
        is_trial_score(weights@, score as int),
{
    let mut sim = Simulator::new_with_weights(weights);
    let ghost start = sim;
    sim.run_for(TEST_ITERATIONS);
    let score = sim.stats().score as u128;
    assert(start.fresh_with(weights@) && start.ran(&sim, TEST_ITERATIONS as nat)
        && score == sim.spec_state().spec_stats().score);
    score
}

/// Whether `score` is what a trial of the weights may give: the score of
/// a simulator that began a fresh game with the weights and ran for
/// `TEST_ITERATIONS` pieces.
pub open spec fn is_trial_score(weights: Seq<(Feature, Weight)>, score: int) -> bool {
    exists|start: Simulator, end: Simulator|
        {
            &&& start.fresh_with(weights)
            &&& #[trigger] start.ran(&end, TEST_ITERATIONS as nat)
            &&& score == end.spec_state().spec_stats().score
        }
}

impl Learner {
    /// The weights around which the models are drawn, in thousandths.
    pub closed spec fn spec_weights(&self) -> Seq<Weight> {
        self.weights@
    }

    /// The spread with which each weight is drawn, in thousandths.
    pub closed spec fn spec_st_dev(&self) -> Seq<u64> {
        self.st_dev@
    }

    /// There is a weight and a spread for each of the six features.
    pub open spec fn wf(&self) -> bool {
        self.spec_weights().len() == 6 && self.spec_st_dev().len() == 6
    }

    /// Whether `after` is this learner after it has learned from the
    /// models tried: each weight is the mean over the kept models, each
    /// spread their deviation.
    pub open spec fn learned(&self, after: &Learner, results: Seq<EvalResult>) -> bool {
        &&& after.wf()
        &&& forall|d: int| 0 <= d < 6 ==> #[trigger] after.spec_weights()[d] == raw_mean(results, d)
        &&& forall|d: int|
            0 <= d < 6 ==> #[trigger] after.spec_st_dev()[d] == raw_deviation(results, d)
    }

    /// Takes the means and deviations of the best of the models tried as
    /// the new weights and spreads.
    pub fn learn(&mut self, results: &Vec<EvalResult>)
        requires
            old(self).wf(),
            0 < results.len() <= MODELS_PER_GEN,
            results_ok(results@, 6),
        ensures
            old(self).learned(final(self), results@),
    {
        let mut weights: Vec<Weight> = Vec::new();
        let mut st_dev: Vec<u64> = Vec::new();
        let mut d: usize = 0;
        while d < 6
            invariant
                d <= 6,
                0 < results.len() <= MODELS_PER_GEN,
                results_ok(results@, 6),
                weights.len() == d,
                st_dev.len() == d,
                forall|k: int| 0 <= k < d ==> #[trigger] weights[k] == raw_mean(results@, k),
                forall|k: int| 0 <= k < d ==> #[trigger] st_dev[k] == raw_deviation(results@, k),
            decreases 6 - d,
        {
            let (mean, deviation) = kept_statistics(results, d);
            weights.push(mean);
            st_dev.push(deviation);
            d += 1;
        }
        self.weights = weights;
        self.st_dev = st_dev;
    }

    /// Tries the models of a generation, each by a short game, and learns
    /// from them. Models that are not as many as a generation has, or not
    /// each one weight for each feature, are refused.
    pub fn step(&mut self, models: &Vec<Vec<Weight>>) -> (done: Result<(), Error>)
        requires
            old(self).wf(),
        ensures
            done is Ok <==> is_generation(model_views(models@), 6),
            done matches Err(e) ==> e == Error::LengthMismatch && final(self).spec_weights() == old(self).spec_weights() && final(self).spec_st_dev() == old(self).spec_st_dev(),
            done is Ok ==> exists|results: Seq<EvalResult>|
                {
                    &&& results.len() == models.len()
                    &&& forall|i: int|
                        0 <= i < results.len() ==> (#[trigger] results[i]).weights@ == models[i]@
                            && is_trial_score(
                            paired(Feature::spec_all(), models[i]@),
                            results[i].score as int,
                        )
                    &&& #[trigger] old(self).learned(final(self), results)
                },
    {
        if models.len() != MODELS_PER_GEN {
            return Err(Error::LengthMismatch);
        }
        let all = Feature::all();
        let features = match Features::from_names(
            &[all[0].name(), all[1].name(), all[2].name(), all[3].name(), all[4].name(), all[5].name()],
        ) {
            Ok(f) => f,
            Err(_) => {
                return Err(Error::LengthMismatch);
            },
        };
        assert(features@ =~= Feature::spec_all());
        let mut results: Vec<EvalResult> = Vec::new();
        let mut i: usize = 0;
        while i < models.len()
            invariant
                i <= models.len(),
                models.len() == MODELS_PER_GEN,
                *self == *old(self),
                self.wf(),
                features@.len() == 6,
                results.len() == i,
                results_ok(results@, 6),
                features@ == Feature::spec_all(),
                forall|k: int|
                    0 <= k < i ==> (#[trigger] results[k]).weights@ == models[k]@ && is_trial_score(
                        paired(Feature::spec_all(), models[k]@),
                        results[k].score as int,
                    ),
                forall|k: int| 0 <= k < i ==> (#[trigger] models[k]).len() == 6,
            decreases models.len() - i,
        {
            let score = match features.with_weights(models[i].as_slice()) {
                Ok(weights) => {
                    assert(weights@ =~= paired(Feature::spec_all(), models[i as int]@));
                    test(weights)
                },
                Err(e) => {
                    assert(model_views(models@)[i as int].len() != 6);
                    return Err(e);
                },
            };
            let mut copy: Vec<Weight> = Vec::new();
            let mut k: usize = 0;
            while k < models[i].len()
                invariant
                    k <= models[i as int].len(),
                    i < models.len(),
                    copy.len() == k,
                    forall|j: int| 0 <= j < k ==> copy[j] == models[i as int][j],
                decreases models[i as int].len() - k,
            {
                copy.push(models[i][k]);
                k += 1;
            }
            assert(copy@ =~= models[i as int]@);
            results.push(EvalResult { weights: copy, score });
            i += 1;
        }
        assert forall|k: int| 0 <= k < model_views(models@).len() implies (#[trigger] model_views(
            models@,
        )[k]).len() == 6 by {
            assert(models[k].len() == 6);
        }
        self.learn(&results);
        Ok(())
    }

    /// The weights with the names of their features, and the spreads.
    pub fn state(&self) -> (out: (WeightsMap, &Vec<u64>))
        requires
            self.wf(),
        ensures
            out.0@.len() == 6,
            forall|i: int|
                0 <= i < 6 ==> #[trigger] out.0@[i] == (
                    Feature::spec_all()[i].spec_name(),
                    self.spec_weights()[i],
                ),
            out.1@ == self.spec_st_dev(),
    {
        let all = Feature::all();
        let names = [
            all[0].name(),
            all[1].name(),
            all[2].name(),
            all[3].name(),
            all[4].name(),
            all[5].name(),
        ];
        let map = match WeightsMap::from_features_values(&names, self.weights.as_slice()) {
            Ok(map) => map,
            Err(_) => WeightsMap::defaults(),
        };
        (map, &self.st_dev)
    }
}

impl Default for Learner {
    /// A learner before its first generation: every weight is zero, every
    /// spread the initial one.
    fn default() -> (learner: Learner)
        ensures
            learner.wf(),
            forall|i: int| 0 <= i < 6 ==> learner.spec_weights()[i] == 0,
            forall|i: int| 0 <= i < 6 ==> learner.spec_st_dev()[i] == INITIAL_DEVIATION,
    {
        let mut weights: Vec<Weight> = Vec::new();
        let mut st_dev: Vec<u64> = Vec::new();
        let mut i: usize = 0;
        while i < 6
            invariant
                i <= 6,
                weights.len() == i,
                st_dev.len() == i,
                forall|k: int| 0 <= k < i ==> weights[k] == 0,
                forall|k: int| 0 <= k < i ==> st_dev[k] == INITIAL_DEVIATION,
            decreases 6 - i,
        {
            weights.push(0);
            st_dev.push(INITIAL_DEVIATION);
            i += 1;
        }
        Learner { weights, st_dev }
    }
}

} // verus!
