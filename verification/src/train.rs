use crate::error::Error;
use crate::feature::{
    all_known, same_text, texts, Feature, Features, Weight, Weights, MAX_ENTRIES,
};
use crate::numeric::{
    div_round, isqrt, lemma_nearest_between, lemma_nearest_bounds, nearest, sqrt_floor,
};
use crate::simulator::Simulator;
use crate::state::Stats;
use vstd::prelude::*;

verus! {

/// Number of models that make a generation.
pub const MODELS_PER_GEN: usize = 100;

/// Number of models of a generation from which the next one is made.
pub const KEPT_PER_GEN: usize = 10;

/// Number of pieces that a model plays to be judged.
pub const EVAL_ITERATIONS: usize = 10000;

/// The magnitude of the greatest weight after a generation, in
/// thousandths.
pub const WEIGHT_RANGE: Weight = 10000;

/// The spread below which a weight counts as settled, in thousandths.
pub const STABLE_THRESHOLD: u64 = 250;

/// The spread of every weight before the first generation, in
/// thousandths.
pub const INITIAL_DEVIATION: u64 = 10000;

/// The level at which a game that is judged by its lines ends.
pub const LEVEL_GOAL: u64 = 30;

/// No fitness is greater than this.
pub const FITNESS_LIMIT: u128 = 0x10_0000_0000_0000_0000_0000_0000;

/// By what a model is judged.
#[derive(Debug, Clone, Copy, PartialEq, Eq, Structural)]
pub enum TrainCriteria {
    /// The score after `EVAL_ITERATIONS` pieces.
    Score,
    /// The lines cleared until the game is over or `LEVEL_GOAL` reached.
    Level,
    /// Ten times the score after `EVAL_ITERATIONS` pieces, times one
    /// more than the number of tetrises.
    Tetrises,
}

/// The fitness that the criterion gives to a game with the given
/// statistics.
pub open spec fn fitness_of(criteria: TrainCriteria, stats: Stats) -> int {
    match criteria {
        TrainCriteria::Score => stats.score as int,
        TrainCriteria::Level => stats.lines as int,
        TrainCriteria::Tetrises => stats.score * 10 * (stats.tetrises + 1),
    }
}

/// The criterion with the given name, if there is one.
pub open spec fn criterion_of(name: Seq<char>) -> Option<TrainCriteria> {
    if name == "score"@ {
        Some(TrainCriteria::Score)
    } else if name == "level"@ {
        Some(TrainCriteria::Level)
    } else if name == "tetrises"@ {
        Some(TrainCriteria::Tetrises)
    } else {
        None
    }
}

/// Whether `end` is what the game by which the criterion judges makes of
/// the simulator `start`: a run to the level `LEVEL_GOAL` where the
/// lines are judged, a run of `EVAL_ITERATIONS` pieces else.
pub open spec fn is_eval_game(criteria: TrainCriteria, start: &Simulator, end: &Simulator) -> bool {
    match criteria {
        TrainCriteria::Level => start.ran_to_level(end, LEVEL_GOAL),
        _ => start.ran(end, EVAL_ITERATIONS as nat),
    }
}

/// Whether `fitness` is what the criterion may give to the weights: the
/// fitness of the statistics with which a simulator ends that began a
/// fresh game with the weights and played the game of the criterion.
pub open spec fn is_fitness(
    criteria: TrainCriteria,
    weights: Seq<(Feature, Weight)>,
    fitness: int,
) -> bool {
    exists|start: Simulator, end: Simulator|
        {
            &&& start.fresh_with(weights)
            &&& #[trigger] is_eval_game(criteria, &start, &end)
            &&& fitness == fitness_of(criteria, end.spec_state().spec_stats())
        }
}

/// The features with the values, one for each, as weights.
pub open spec fn paired(features: Seq<Feature>, values: Seq<Weight>) -> Seq<(Feature, Weight)> {
    Seq::new(features.len(), |i: int| (features[i], values[i]))
}

impl TrainCriteria {
    /// The criterion with the given name. A name that no criterion has is
    /// refused.
    pub fn from_str(s: &str) -> (criteria: Result<TrainCriteria, Error>)
        ensures
            criteria is Ok <==> criterion_of(s@) is Some,
            criteria matches Ok(c) ==> Some(c) == criterion_of(s@),
            criteria matches Err(e) ==> e == Error::UnknownCriterion,
    {
        if same_text(s, "score") {
            Ok(TrainCriteria::Score)
        } else if same_text(s, "level") {
            Ok(TrainCriteria::Level)
        } else if same_text(s, "tetrises") {
            Ok(TrainCriteria::Tetrises)
        } else {
            Err(Error::UnknownCriterion)
        }
    }

    /// The fitness of a game with the given statistics.
    pub fn fitness(&self, stats: Stats) -> (fitness: u128)
        requires
            fitness_of(*self, stats) <= u128::MAX,
        ensures
            fitness == fitness_of(*self, stats),
    {
        match self {
            TrainCriteria::Score => stats.score as u128,
            TrainCriteria::Level => stats.lines as u128,
            TrainCriteria::Tetrises => {
                let tenfold: u128 = stats.score as u128 * 10;
                let times: u128 = stats.tetrises as u128 + 1;
                assert(tenfold * times == stats.score * 10 * (stats.tetrises + 1)) by (nonlinear_arith)
                    requires
                        tenfold == stats.score * 10,
                        times == stats.tetrises + 1,
                ;
                tenfold * times
            },
        }
    }

    /// Lets a fresh simulator play by the weights and returns the fitness
    /// of its game.
    pub fn eval(&self, weights: Weights) -> (fitness: u128)
        ensures
            fitness <= FITNESS_LIMIT,
            is_fitness(*self, weights@, fitness as int),
    {
        let mut sim = Simulator::new_with_weights(weights);
        let ghost start = sim;
        match self {
            TrainCriteria::Level => {
                sim.run_to_level(LEVEL_GOAL);
            },
            _ => {
                sim.run_for(EVAL_ITERATIONS);
            },
        }
        let stats = sim.stats();
        proof {
            if *self == TrainCriteria::Tetrises {
                assert(stats.score * 10 * (stats.tetrises + 1) <= 0x1_0000_0000_0000_0000 * 10
                    * 10001) by (nonlinear_arith)
                    requires
                        0 <= stats.score < 0x1_0000_0000_0000_0000,
                        0 <= stats.tetrises <= 10000,
                ;
            }
        }
        let fitness = self.fitness(stats);
        assert(start.fresh_with(weights@) && is_eval_game(*self, &start, &sim) && fitness
            == fitness_of(*self, sim.spec_state().spec_stats()));
        fitness
    }
}

/// A model with the fitness of its game.
#[derive(Debug)]
pub struct EvalResult {
    pub weights: Vec<Weight>,
    pub score: u128,
}

/// What a generation has come to: the new weights and their spreads, in
/// thousandths, and the highest, the lowest and the mean fitness.
#[derive(Debug)]
pub struct TrainGeneration {
    pub weights: Vec<Weight>,
    pub std_dev: Vec<u64>,
    pub max: u128,
    pub min: u128,
    pub mean: u128,
}

/// What one step of the training did: which model of which generation
/// was judged, how, and what the generation has come to if this was its
/// last model.
#[derive(Debug)]
pub struct TrainState {
    gen_index: usize,
    model_index: usize,
    eval_result: EvalResult,
    generation: Option<TrainGeneration>,
}

/// Whether model `j` stands before model `i`: it is fitter, or as fit and
/// earlier.
pub open spec fn outranks(results: Seq<EvalResult>, j: int, i: int) -> bool {
    results[j].score > results[i].score || (results[j].score == results[i].score && j < i)
}

/// Number of models among the first `n` that stand before model `i`.
pub open spec fn outranked(results: Seq<EvalResult>, i: int, n: int) -> int
    decreases n,
{
    if n <= 0 {
        0
    } else {
        outranked(results, i, n - 1) + if outranks(results, n - 1, i) {
            1int
        } else {
            0int
        }
    }
}

/// Whether model `i` is one of the `KEPT_PER_GEN` that stand first.
pub open spec fn is_kept(results: Seq<EvalResult>, i: int) -> bool {
    outranked(results, i, results.len() as int) < KEPT_PER_GEN
}

/// Number of kept models among the first `n`.
pub open spec fn kept_count(results: Seq<EvalResult>, n: int) -> int
    decreases n,
{
    if n <= 0 {
        0
    } else {
        kept_count(results, n - 1) + if is_kept(results, n - 1) {
            1int
        } else {
            0int
        }
    }
}

/// Sum of weight `d` over the kept models among the first `n`.
pub open spec fn kept_sum(results: Seq<EvalResult>, d: int, n: int) -> int
    decreases n,
{
    if n <= 0 {
        0
    } else {
        kept_sum(results, d, n - 1) + if is_kept(results, n - 1) {
            results[n - 1].weights[d] as int
        } else {
            0int
        }
    }
}

/// Sum, over the kept models among the first `n`, of the square of the
/// distance of weight `d` from `center`.
pub open spec fn kept_squares(results: Seq<EvalResult>, d: int, center: int, n: int) -> int
    decreases n,
{
    if n <= 0 {
        0
    } else {
        kept_squares(results, d, center, n - 1) + if is_kept(results, n - 1) {
            (results[n - 1].weights[d] - center) * (results[n - 1].weights[d] - center)
        } else {
            0int
        }
    }
}

/// The mean of weight `d` over the kept models, rounded to the nearest
/// thousandth.
pub open spec fn raw_mean(results: Seq<EvalResult>, d: int) -> int {
    let k = kept_count(results, results.len() as int);
    if k <= 0 {
        0
    } else {
        nearest(kept_sum(results, d, results.len() as int), k)
    }
}

/// The spread of weight `d` over the kept models: the whole part of the
/// root of the mean square distance from the mean.
pub open spec fn raw_deviation(results: Seq<EvalResult>, d: int) -> int {
    let k = kept_count(results, results.len() as int);
    if k <= 0 {
        0
    } else {
        sqrt_floor(kept_squares(results, d, raw_mean(results, d), results.len() as int) / k)
    }
}

/// The greatest magnitude among the first `n` mean weights.
pub open spec fn peak(results: Seq<EvalResult>, n: int) -> int
    decreases n,
{
    if n <= 0 {
        0
    } else {
        let m = raw_mean(results, n - 1);
        let a = if m < 0 {
            -m
        } else {
            m
        };
        if a > peak(results, n - 1) {
            a
        } else {
            peak(results, n - 1)
        }
    }
}

/// The value scaled so that the greatest magnitude becomes
/// `WEIGHT_RANGE`, rounded to the nearest thousandth; unchanged where the
/// greatest magnitude is zero.
pub open spec fn rescaled(v: int, peak: int) -> int {
    if peak <= 0 {
        v
    } else {
        nearest(v * WEIGHT_RANGE, peak)
    }
}

/// Sum of the fitness of the first `n` models.
pub open spec fn score_total(results: Seq<EvalResult>, n: int) -> int
    decreases n,
{
    if n <= 0 {
        0
    } else {
        score_total(results, n - 1) + results[n - 1].score
    }
}

/// Whether `generation` is what the models come to: the weights are the
/// means over the kept models and the spreads their deviations, both
/// scaled to the weight range; with the highest, the lowest and the mean
/// fitness of all models.
pub open spec fn is_summary(results: Seq<EvalResult>, dims: int, generation: &TrainGeneration) -> bool {
    &&& generation.weights.len() == dims
    &&& generation.std_dev.len() == dims
    &&& forall|d: int|
        0 <= d < dims ==> #[trigger] generation.weights[d] == rescaled(
            raw_mean(results, d),
            peak(results, dims),
        )
    &&& forall|d: int|
        0 <= d < dims ==> #[trigger] generation.std_dev[d] == rescaled(
            raw_deviation(results, d),
            peak(results, dims),
        )
    &&& forall|i: int| 0 <= i < results.len() ==> generation.min <= (#[trigger] results[i]).score <= generation.max
    &&& exists|i: int| 0 <= i < results.len() && (#[trigger] results[i]).score == generation.max
    &&& exists|i: int| 0 <= i < results.len() && (#[trigger] results[i]).score == generation.min
    &&& generation.mean == score_total(results, results.len() as int) / (results.len() as int)
}

/// Whether every model has `dims` weights and a fitness within the
/// limit.
pub open spec fn results_ok(results: Seq<EvalResult>, dims: int) -> bool {
    forall|i: int|
        0 <= i < results.len() ==> (#[trigger] results[i]).weights.len() == dims && results[i].score
            <= FITNESS_LIMIT
}

/// Which of the models are kept.
fn keep_flags(results: &Vec<EvalResult>) -> (flags: Vec<bool>)
    requires
        results.len() <= MODELS_PER_GEN,
    ensures
        flags.len() == results.len(),
        forall|i: int| 0 <= i < results.len() ==> flags[i] == is_kept(results@, i),
{
    let n = results.len();
    let mut flags: Vec<bool> = Vec::new();
    let mut i: usize = 0;
    while i < n
        invariant
            i <= n,
            n == results.len(),
            n <= MODELS_PER_GEN,
            flags.len() == i,
            forall|k: int| 0 <= k < i ==> flags[k] == is_kept(results@, k),
        decreases n - i,
    {
        let mut before: usize = 0;
        let mut j: usize = 0;
        while j < n
            invariant
                j <= n,
                i < n,
                n == results.len(),
                n <= MODELS_PER_GEN,
                before == outranked(results@, i as int, j as int),
                before <= j,
            decreases n - j,
        {
            if results[j].score > results[i].score || (results[j].score == results[i].score && j
                < i) {
                before += 1;
            }
            j += 1;
        }
        flags.push(before < KEPT_PER_GEN);
        i += 1;
    }
    flags
}

/// The rounded mean and the spread of weight `d` over the kept models.
pub fn kept_statistics(results: &Vec<EvalResult>, d: usize) -> (out: (Weight, u64))
    requires
        0 < results.len() <= MODELS_PER_GEN,
        forall|i: int| 0 <= i < results.len() ==> d < (#[trigger] results[i]).weights.len(),
    ensures
        out.0 == raw_mean(results@, d as int),
        out.1 == raw_deviation(results@, d as int),
        out.1 <= 0x1000_0000_0000,
{
    let flags = keep_flags(results);
    mean_and_deviation(results, &flags, d)
}

/// The rounded mean and the spread of weight `d` over the models that
/// the flags name as kept.
#[verifier::rlimit(40)]
fn mean_and_deviation(results: &Vec<EvalResult>, flags: &Vec<bool>, d: usize) -> (out: (Weight, u64))
    requires
        0 < results.len() <= MODELS_PER_GEN,
        forall|i: int| 0 <= i < results.len() ==> d < (#[trigger] results[i]).weights.len(),
        flags.len() == results.len(),
        forall|i: int| 0 <= i < results.len() ==> flags[i] == is_kept(results@, i),
    ensures
        out.0 == raw_mean(results@, d as int),
        out.1 == raw_deviation(results@, d as int),
        out.1 <= 0x1000_0000_0000,
{
    let n = results.len();
    let mut sum: i64 = 0;
    let mut count: usize = 0;
    let mut i: usize = 0;
    while i < n
        invariant
            i <= n,
            n == results.len(),
            n <= MODELS_PER_GEN,
            forall|k: int| 0 <= k < results.len() ==> d < (#[trigger] results[k]).weights.len(),
            flags.len() == n,
            forall|k: int| 0 <= k < n ==> flags[k] == is_kept(results@, k),
            count == kept_count(results@, i as int),
            count <= i,
            sum == kept_sum(results@, d as int, i as int),
            count * -0x8000_0000 <= sum <= count * 0x7fff_ffff,
        decreases n - i,
    {
        if flags[i] {
            sum = sum + results[i].weights[d] as i64;
            count += 1;
        }
        i += 1;
    }
    if count == 0 {
        return (0, 0);
    }
    proof {
        lemma_nearest_between(sum as int, count as int, -0x8000_0000, 0x7fff_ffff);
    }
    let mean = div_round(sum as i128, count as i128);
    let mut squares: u128 = 0;
    let mut i: usize = 0;
    while i < n
        invariant
            i <= n,
            n == results.len(),
            n <= MODELS_PER_GEN,
            forall|k: int| 0 <= k < results.len() ==> d < (#[trigger] results[k]).weights.len(),
            flags.len() == n,
            forall|k: int| 0 <= k < n ==> flags[k] == is_kept(results@, k),
            -0x8000_0000 <= mean <= 0x7fff_ffff,
            squares == kept_squares(results@, d as int, mean as int, i as int),
            squares <= 0x1_0000_0000_0000_0000 * i,
        decreases n - i,
    {
        if flags[i] {
            let gap: i128 = results[i].weights[d] as i128 - mean;
            assert(0 <= gap * gap <= 0x1_0000_0000_0000_0000) by (nonlinear_arith)
                requires
                    -0x1_0000_0000 <= gap <= 0x1_0000_0000,
            ;
            squares = squares + (gap * gap) as u128;
        }
        i += 1;
    }
    let variance = squares / (count as u128);
    let deviation = isqrt(variance);
    assert(deviation <= 0x1000_0000_0000) by (nonlinear_arith)
        requires
            0 <= deviation,
            deviation * deviation <= variance,
            variance <= 0x1_0000_0000_0000_0000 * 100,
    ;
    (mean as Weight, deviation)
}

/// What the models of a generation come to.
#[verifier::rlimit(40)]
pub fn summarize(results: &Vec<EvalResult>, dims: usize) -> (generation: TrainGeneration)
    requires
        0 < results.len() <= MODELS_PER_GEN,
        results_ok(results@, dims as int),
    ensures
        is_summary(results@, dims as int, &generation),
{
    let n = results.len();
    let flags = keep_flags(results);
    let mut means: Vec<Weight> = Vec::new();
    let mut deviations: Vec<u64> = Vec::new();
    let mut top: i64 = 0;
    assert(forall|i: int| 0 <= i < results.len() ==> (#[trigger] results[i]).weights.len() == dims);
    let mut d: usize = 0;
    while d < dims
        invariant
            d <= dims,
            0 < results.len() <= MODELS_PER_GEN,
            results_ok(results@, dims as int),
            flags.len() == results.len(),
            forall|i: int| 0 <= i < results.len() ==> flags[i] == is_kept(results@, i),
            means.len() == d,
            deviations.len() == d,
            forall|k: int|
                0 <= k < d ==> #[trigger] means[k] == raw_mean(results@, k) && -top <= means[k]
                    <= top,
            forall|k: int|
                0 <= k < d ==> #[trigger] deviations[k] == raw_deviation(results@, k)
                    && deviations[k] <= 0x1000_0000_0000,
            top == peak(results@, d as int),
            0 <= top <= 0x40_0000_0000,
        decreases dims - d,
    {
        let (mean, deviation) = mean_and_deviation(results, &flags, d);
        let size: i64 = if mean < 0 {
            -(mean as i64)
        } else {
            mean as i64
        };
        if size > top {
            top = size;
        }
        means.push(mean);
        deviations.push(deviation);
        d += 1;
    }
    let mut weights: Vec<Weight> = Vec::new();
    let mut std_dev: Vec<u64> = Vec::new();
    let mut d: usize = 0;
    while d < dims
        invariant
            d <= dims,
            means.len() == dims,
            deviations.len() == dims,
            forall|k: int|
                0 <= k < dims ==> #[trigger] means[k] == raw_mean(results@, k) && -top <= means[k]
                    <= top,
            forall|k: int|
                0 <= k < dims ==> #[trigger] deviations[k] == raw_deviation(results@, k)
                    && deviations[k] <= 0x1000_0000_0000,
            top == peak(results@, dims as int),
            0 <= top <= 0x40_0000_0000,
            weights.len() == d,
            std_dev.len() == d,
            forall|k: int|
                0 <= k < d ==> #[trigger] weights[k] == rescaled(raw_mean(results@, k), top as int),
            forall|k: int|
                0 <= k < d ==> #[trigger] std_dev[k] == rescaled(
                    raw_deviation(results@, k),
                    top as int,
                ),
        decreases dims - d,
    {
        let mean = means[d];
        let deviation = deviations[d];
        if top == 0 {
            weights.push(mean);
            std_dev.push(deviation);
        } else {
            proof {
                lemma_rescaled_bounds(mean as int, top as int);
                lemma_nearest_bounds(deviation * WEIGHT_RANGE, top as int);
            }
            let scaled = div_round(mean as i128 * 10000, top as i128);
            let spread = div_round(deviation as i128 * 10000, top as i128);
            weights.push(scaled as Weight);
            std_dev.push(spread as u64);
        }
        d += 1;
    }
    let mut max: u128 = results[0].score;
    let mut min: u128 = results[0].score;
    let mut total: u128 = 0;
    let mut i: usize = 0;
    while i < n
        invariant
            i <= n,
            n == results.len(),
            0 < n <= MODELS_PER_GEN,
            results_ok(results@, dims as int),
            forall|k: int| 0 <= k < i ==> min <= (#[trigger] results[k]).score <= max,
            exists|k: int| 0 <= k < n && (#[trigger] results[k]).score == max,
            exists|k: int| 0 <= k < n && (#[trigger] results[k]).score == min,
            total == score_total(results@, i as int),
            total <= FITNESS_LIMIT * i,
        decreases n - i,
    {
        let score = results[i].score;
        if score > max {
            max = score;
        }
        if score < min {
            min = score;
        }
        total = total + score;
        i += 1;
    }
    TrainGeneration { weights, std_dev, max, min, mean: total / (n as u128) }
}

/// A value no greater in magnitude than the peak keeps within the weight
/// range when it is scaled.
pub proof fn lemma_rescaled_bounds(v: int, peak: int)
    requires
        peak > 0,
        -peak <= v <= peak,
    ensures
        -WEIGHT_RANGE <= nearest(v * WEIGHT_RANGE, peak) <= WEIGHT_RANGE,
{
    let m = if v >= 0 {
        v
    } else {
        -v
    };
    assert(0 <= (2 * (m * 10000) + peak) / (2 * peak) <= 10000) by (nonlinear_arith)
        requires
            0 <= m <= peak,
            peak > 0,
    ;
    if v < 0 {
        assert(-(v * 10000) == m * 10000) by (nonlinear_arith)
            requires
                m == -v,
        ;
    }
}


/// The models that the vectors hold.
pub open spec fn model_views(models: Seq<Vec<Weight>>) -> Seq<Seq<Weight>> {
    Seq::new(models.len(), |m: int| models[m]@)
}

/// Whether the models are a generation for `dims` features: as many as a
/// generation has, each with one weight for each feature.
pub open spec fn is_generation(models: Seq<Seq<Weight>>, dims: int) -> bool {
    models.len() == MODELS_PER_GEN && forall|m: int|
        0 <= m < models.len() ==> (#[trigger] models[m]).len() == dims
}

/// A copy of the weights.
fn copy_weights(weights: &Vec<Weight>) -> (copy: Vec<Weight>)
    ensures
        copy@ == weights@,
{
    let mut copy: Vec<Weight> = Vec::new();
    let mut i: usize = 0;
    while i < weights.len()
        invariant
            i <= weights.len(),
            copy.len() == i,
            forall|k: int| 0 <= k < i ==> copy[k] == weights[k],
        decreases weights.len() - i,
    {
        copy.push(weights[i]);
        i += 1;
    }
    assert(copy@ =~= weights@);
    copy
}

/// A copy of the spreads.
fn copy_spreads(spreads: &Vec<u64>) -> (copy: Vec<u64>)
    ensures
        copy@ == spreads@,
{
    let mut copy: Vec<u64> = Vec::new();
    let mut i: usize = 0;
    while i < spreads.len()
        invariant
            i <= spreads.len(),
            copy.len() == i,
            forall|k: int| 0 <= k < i ==> copy[k] == spreads[k],
        decreases spreads.len() - i,
    {
        copy.push(spreads[i]);
        i += 1;
    }
    assert(copy@ =~= spreads@);
    copy
}

impl TrainState {
    /// The generation of the model that was judged, counted from one.
    pub closed spec fn spec_gen_index(&self) -> usize {
        self.gen_index
    }

    /// Which model of its generation was judged, counted from one.
    pub closed spec fn spec_model_index(&self) -> usize {
        self.model_index
    }

    /// The model that was judged, with its fitness.
    pub closed spec fn spec_eval_result(&self) -> EvalResult {
        self.eval_result
    }

    /// What the generation has come to, if the model was its last.
    pub closed spec fn spec_generation(&self) -> Option<TrainGeneration> {
        self.generation
    }

    /// The generation of the model that was judged, counted from one.
    pub fn gen_index(&self) -> (n: usize)
        ensures
            n == self.spec_gen_index(),
    {
        self.gen_index
    }

    /// Which model of its generation was judged, counted from one.
    pub fn model_index(&self) -> (n: usize)
        ensures
            n == self.spec_model_index(),
    {
        self.model_index
    }

    /// The model that was judged, with its fitness.
    pub fn eval_result(&self) -> (result: &EvalResult)
        ensures
            *result == self.spec_eval_result(),
    {
        &self.eval_result
    }

    /// What the generation has come to, if the model was its last.
    pub fn generation(&self) -> (generation: Option<&TrainGeneration>)
        ensures
            generation is Some == self.spec_generation() is Some,
            generation matches Some(g) ==> self.spec_generation() == Some(*g),
    {
        self.generation.as_ref()
    }
}

/// Learns weights: generation after generation, models are judged by the
/// games they play, and the best of a generation say where the next one
/// is drawn from.
pub struct Trainer {
    features: Features,
    weights: Vec<Weight>,
    st_dev: Vec<u64>,
    criteria: TrainCriteria,
    current_gen: Option<Vec<Vec<Weight>>>,
    current_gen_index: usize,
    current_results: Vec<EvalResult>,
    current_model_index: usize,
}

impl Trainer {
    /// There is a weight and a spread for each feature; every model, of
    /// the generation at work and of those judged, has a weight for each
    /// feature too; and the models judged are fewer than a generation.
    pub closed spec fn wf(&self) -> bool {
        &&& self.weights.len() == self.features@.len()
        &&& self.st_dev.len() == self.features@.len()
        &&& self.current_results.len() == self.current_model_index
        &&& self.current_model_index < MODELS_PER_GEN
        &&& results_ok(self.current_results@, self.features@.len() as int)
        &&& self.current_gen matches Some(g) ==> is_generation(
            model_views(g@),
            self.features@.len() as int,
        )
        &&& self.current_gen is None ==> self.current_model_index == 0
    }

    /// The features whose weights are learned.
    pub closed spec fn spec_features(&self) -> Features {
        self.features
    }

    /// By what the models are judged.
    pub closed spec fn spec_criteria(&self) -> TrainCriteria {
        self.criteria
    }

    /// The weights around which the models are drawn, in thousandths.
    pub closed spec fn spec_weights(&self) -> Seq<Weight> {
        self.weights@
    }

    /// The spread with which each weight is drawn, in thousandths.
    pub closed spec fn spec_st_dev(&self) -> Seq<u64> {
        self.st_dev@
    }

    /// The models of the generation at work, if there is one.
    pub closed spec fn spec_models(&self) -> Option<Seq<Seq<Weight>>> {
        match self.current_gen {
            Some(g) => Some(model_views(g@)),
            None => None,
        }
    }

    /// The models judged so far in the generation at work.
    pub closed spec fn spec_results(&self) -> Seq<EvalResult> {
        self.current_results@
    }

    /// The number of the generation at work, counted from one.
    pub closed spec fn spec_gen_index(&self) -> usize {
        self.current_gen_index
    }

    /// A list of `n` equal weights.
    fn flat_weights(n: usize, weight: Weight) -> (list: Vec<Weight>)
        ensures
            list.len() == n,
            forall|i: int| 0 <= i < n ==> list[i] == weight,
    {
        let mut list: Vec<Weight> = Vec::new();
        let mut i: usize = 0;
        while i < n
            invariant
                i <= n,
                list.len() == i,
                forall|k: int| 0 <= k < i ==> list[k] == weight,
            decreases n - i,
        {
            list.push(weight);
            i += 1;
        }
        list
    }

    /// A list of `n` equal spreads.
    fn flat_spreads(n: usize, spread: u64) -> (list: Vec<u64>)
        ensures
            list.len() == n,
            forall|i: int| 0 <= i < n ==> list[i] == spread,
    {
        let mut list: Vec<u64> = Vec::new();
        let mut i: usize = 0;
        while i < n
            invariant
                i <= n,
                list.len() == i,
                forall|k: int| 0 <= k < i ==> list[k] == spread,
            decreases n - i,
        {
            list.push(spread);
            i += 1;
        }
        list
    }

    /// A trainer before its first generation: every weight is zero, every
    /// spread the initial one.
    pub fn new(features: Features, criteria: TrainCriteria) -> (trainer: Trainer)
        ensures
            trainer.wf(),
            trainer.spec_features()@ == features@,
            trainer.spec_criteria() == criteria,
            trainer.spec_weights().len() == features@.len(),
            trainer.spec_st_dev().len() == features@.len(),
            forall|i: int| 0 <= i < features@.len() ==> trainer.spec_weights()[i] == 0,
            forall|i: int| 0 <= i < features@.len() ==> trainer.spec_st_dev()[i] == INITIAL_DEVIATION,
            trainer.spec_models() is None,
            trainer.spec_results().len() == 0,
            trainer.spec_gen_index() == 1,
    {
        let n = features.len();
        Trainer {
            weights: Trainer::flat_weights(n, 0),
            st_dev: Trainer::flat_spreads(n, INITIAL_DEVIATION),
            features,
            criteria,
            current_gen: None,
            current_gen_index: 1,
            current_results: Vec::new(),
            current_model_index: 0,
        }
    }

    /// A trainer for the features and the criterion with the given names.
    /// A name that no feature or no criterion has is refused.
    pub fn from_feature_names(feature_names: &[&str], criteria: &str) -> (trainer: Result<
        Trainer,
        Error,
    >)
        requires
            feature_names.len() <= MAX_ENTRIES,
        ensures
            trainer is Ok <==> all_known(texts(feature_names@)) && criterion_of(criteria@) is Some,
            trainer matches Err(e) ==> e == (if all_known(texts(feature_names@)) {
                Error::UnknownCriterion
            } else {
                Error::UnknownFeature
            }),
            trainer matches Ok(t) ==> t.wf() && Some(t.spec_criteria()) == criterion_of(criteria@)
                && t.spec_features()@.len() == feature_names.len() && t.spec_models() is None
                && t.spec_gen_index() == 1,
    {
        let features = match Features::from_names(feature_names) {
            Ok(f) => f,
            Err(e) => {
                return Err(e);
            },
        };
        match TrainCriteria::from_str(criteria) {
            Ok(c) => Ok(Trainer::new(features, c)),
            Err(e) => Err(e),
        }
    }

    /// Forgets what was learned: every weight is zero again, every spread
    /// the initial one, and the first generation is to come.
    pub fn reset(&mut self)
        ensures
            final(self).wf(),
            final(self).spec_features() == old(self).spec_features(),
            final(self).spec_criteria() == old(self).spec_criteria(),
            final(self).spec_weights().len() == old(self).spec_features()@.len(),
            forall|i: int|
                0 <= i < final(self).spec_weights().len() ==> final(self).spec_weights()[i] == 0,
            forall|i: int|
                0 <= i < final(self).spec_st_dev().len() ==> final(self).spec_st_dev()[i]
                    == INITIAL_DEVIATION,
            final(self).spec_models() is None,
            final(self).spec_results().len() == 0,
            final(self).spec_gen_index() == 1,
    {
        let n = self.features.len();
        self.weights = Trainer::flat_weights(n, 0);
        self.st_dev = Trainer::flat_spreads(n, INITIAL_DEVIATION);
        self.current_gen = None;
        self.current_gen_index = 1;
        self.current_results = Vec::new();
        self.current_model_index = 0;
    }

    /// The features whose weights are learned.
    pub fn features(&self) -> (features: &Features)
        ensures
            *features == self.spec_features(),
    {
        &self.features
    }

    /// The weights around which the models are drawn, in thousandths.
    pub fn weights(&self) -> (weights: &Vec<Weight>)
        ensures
            weights@ == self.spec_weights(),
            self.wf() ==> weights.len() == self.spec_features()@.len(),
    {
        &self.weights
    }

    /// The spread with which each weight is drawn, in thousandths.
    pub fn st_dev(&self) -> (spreads: &Vec<u64>)
        ensures
            spreads@ == self.spec_st_dev(),
            self.wf() ==> spreads.len() == self.spec_features()@.len(),
    {
        &self.st_dev
    }

    /// Whether the trainer waits for the models of the next generation.
    pub fn needs_generation(&self) -> (b: bool)
        ensures
            b == self.spec_models() is None,
    {
        self.current_gen.is_none()
    }

    /// Whether every weight has settled: each spread is below the
    /// threshold.
    pub fn is_stable(&self) -> (b: bool)
        ensures
            b == forall|i: int|
                0 <= i < self.spec_st_dev().len() ==> self.spec_st_dev()[i] < STABLE_THRESHOLD,
    {
        let mut i: usize = 0;
        while i < self.st_dev.len()
            invariant
                i <= self.st_dev.len(),
                forall|k: int| 0 <= k < i ==> self.st_dev[k] < STABLE_THRESHOLD,
            decreases self.st_dev.len() - i,
        {
            if self.st_dev[i] >= STABLE_THRESHOLD {
                assert(!(self.spec_st_dev()[i as int] < STABLE_THRESHOLD));
                return false;
            }
            i += 1;
        }
        true
    }

    /// Takes the models of the next generation, drawn around the weights
    /// with their spreads. They are refused while a generation is at
    /// work, and if they are not as many as a generation has or not each
    /// one weight for each feature.
    pub fn begin_generation(&mut self, models: Vec<Vec<Weight>>) -> (done: Result<(), Error>)
        requires
            old(self).wf(),
        ensures
            final(self).wf(),
            final(self).spec_features() == old(self).spec_features(),
            final(self).spec_criteria() == old(self).spec_criteria(),
            final(self).spec_weights() == old(self).spec_weights(),
            final(self).spec_st_dev() == old(self).spec_st_dev(),
            final(self).spec_results() == old(self).spec_results(),
            final(self).spec_gen_index() == old(self).spec_gen_index(),
            done is Ok <==> old(self).spec_models() is None && is_generation(
                model_views(models@),
                old(self).spec_features()@.len() as int,
            ),
            done matches Err(e) ==> e == (if old(self).spec_models() is Some {
                Error::GenerationPending
            } else {
                Error::LengthMismatch
            }) && final(self).spec_models() == old(self).spec_models(),
            done is Ok ==> final(self).spec_models() == Some(model_views(models@)),
    {
        if self.current_gen.is_some() {
            return Err(Error::GenerationPending);
        }
        if models.len() != MODELS_PER_GEN {
            return Err(Error::LengthMismatch);
        }
        let dims = self.features.len();
        let mut m: usize = 0;
        while m < models.len()
            invariant
                m <= models.len(),
                models.len() == MODELS_PER_GEN,
                *self == *old(self),
                self.wf(),
                self.current_gen is None,
                dims == self.features@.len(),
                forall|k: int| 0 <= k < m ==> (#[trigger] models[k]).len() == dims,
            decreases models.len() - m,
        {
            if models[m].len() != dims {
                assert(model_views(models@)[m as int].len() != dims);
                return Err(Error::LengthMismatch);
            }
            m += 1;
        }
        assert forall|k: int| 0 <= k < model_views(models@).len() implies (#[trigger] model_views(
            models@,
        )[k]).len() == dims by {
            assert(models[k].len() == dims);
        }
        self.current_gen = Some(models);
        Ok(())
    }

    /// Whether `after` is this trainer after the next model of the
    /// generation at work has been judged with the given fitness, and
    /// `state` the report of it. With the last model of the generation
    /// the weights and spreads become what the generation has come to,
    /// and the next generation is awaited.
    pub open spec fn recorded(&self, after: &Trainer, score: u128, state: &TrainState) -> bool {
        let judged = self.spec_results().len() as int;
        let models = self.spec_models()->0;
        &&& after.wf()
        &&& after.spec_features() == self.spec_features()
        &&& after.spec_criteria() == self.spec_criteria()
        &&& state.spec_gen_index() == self.spec_gen_index()
        &&& state.spec_model_index() == judged + 1
        &&& state.spec_eval_result().weights@ == models[judged]
        &&& state.spec_eval_result().score == score
        &&& if judged + 1 == MODELS_PER_GEN {
            &&& state.spec_generation() matches Some(g)
            &&& exists|all: Seq<EvalResult>|
                {
                    &&& #[trigger] all.len() == MODELS_PER_GEN
                    &&& forall|i: int| 0 <= i < judged ==> all[i] == self.spec_results()[i]
                    &&& all[judged].weights@ == models[judged]
                    &&& all[judged].score == score
                    &&& is_summary(all, self.spec_features()@.len() as int, &g)
                }
            &&& after.spec_weights() == g.weights@
            &&& after.spec_st_dev() == g.std_dev@
            &&& after.spec_models() is None
            &&& after.spec_results().len() == 0
            &&& after.spec_gen_index() == if self.spec_gen_index() < usize::MAX {
                (self.spec_gen_index() + 1) as usize
            } else {
                self.spec_gen_index()
            }
        } else {
            &&& state.spec_generation() is None
            &&& after.spec_weights() == self.spec_weights()
            &&& after.spec_st_dev() == self.spec_st_dev()
            &&& after.spec_models() == self.spec_models()
            &&& after.spec_gen_index() == self.spec_gen_index()
            &&& after.spec_results().len() == judged + 1
            &&& forall|i: int| 0 <= i < judged ==> after.spec_results()[i] == self.spec_results()[i]
            &&& after.spec_results()[judged].weights@ == models[judged]
            &&& after.spec_results()[judged].score == score
        }
    }

    /// Notes the fitness of the next model of the generation at work.
    #[verifier::rlimit(40)]
    pub fn record(&mut self, score: u128) -> (state: TrainState)
        requires
            old(self).wf(),
            old(self).spec_models() is Some,
            score <= FITNESS_LIMIT,
        ensures
            old(self).recorded(final(self), score, &state),
    {
        let dims = self.features.len();
        let gen_index = self.current_gen_index;
        let index = self.current_model_index;
        let ghost before = self.current_results@;
        let ghost models = self.spec_models()->0;
        let (weights, kept) = match &self.current_gen {
            Some(g) => {
                assert(model_views(g@)[index as int] == g[index as int]@);
                (copy_weights(&g[index]), copy_weights(&g[index]))
            },
            None => (Vec::new(), Vec::new()),
        };
        self.current_results.push(EvalResult { weights: kept, score });
        let result = EvalResult { weights, score };
        if index + 1 == MODELS_PER_GEN {
            let generation = self.finish_generation();
            TrainState {
                gen_index,
                model_index: index + 1,
                eval_result: result,
                generation: Some(generation),
            }
        } else {
            self.current_model_index = index + 1;
            TrainState { gen_index, model_index: index + 1, eval_result: result, generation: None }
        }
    }

    /// Judges the next model of the generation at work by a game and
    /// notes its fitness; see `record`. Without a generation at work
    /// nothing is done.
    pub fn step(&mut self) -> (state: Option<TrainState>)
        requires
            old(self).wf(),
        ensures
            final(self).wf(),
            state is Some <==> old(self).spec_models() is Some,
            state is None ==> final(self).spec_models() is None && final(self).spec_weights() == old(self).spec_weights() && final(self).spec_st_dev() == old(self).spec_st_dev() && final(self).spec_gen_index() == old(self).spec_gen_index(),
            state matches Some(s) ==> exists|score: u128|
                {
                    &&& #[trigger] old(self).recorded(final(self), score, &s)
                    &&& is_fitness(
                        old(self).spec_criteria(),
                        paired(
                            old(self).spec_features()@,
                            old(self).spec_models()->0[old(self).spec_results().len() as int],
                        ),
                        score as int,
                    )
                },
    {
        let weights = match &self.current_gen {
            Some(g) => copy_weights(&g[self.current_model_index]),
            None => {
                return None;
            },
        };
        proof {
            assert(model_views(self.current_gen->0@)[self.current_model_index as int]
                == self.current_gen->0[self.current_model_index as int]@);
        }
        let ghost model = weights@;
        let score = match self.features.with_weights(weights.as_slice()) {
            Ok(pairs) => {
                assert(pairs@ =~= paired(self.features@, model));
                self.criteria.eval(pairs)
            },
            Err(_) => {
                assert(false);
                0
            },
        };
        Some(self.record(score))
    }

    /// Ends the generation: from the models judged the new weights and
    /// spreads are made, and the next generation is awaited.
    fn finish_generation(&mut self) -> (generation: TrainGeneration)
        requires
            old(self).weights.len() == old(self).features@.len(),
            old(self).st_dev.len() == old(self).features@.len(),
            old(self).current_results.len() == MODELS_PER_GEN,
            results_ok(old(self).current_results@, old(self).features@.len() as int),
            old(self).current_model_index < MODELS_PER_GEN,
        ensures
            is_summary(old(self).current_results@, old(self).features@.len() as int, &generation),
            final(self).features == old(self).features,
            final(self).criteria == old(self).criteria,
            final(self).weights@ == generation.weights@,
            final(self).st_dev@ == generation.std_dev@,
            final(self).current_gen is None,
            final(self).current_results.len() == 0,
            final(self).current_model_index == 0,
            final(self).current_gen_index == if old(self).current_gen_index < usize::MAX {
                (old(self).current_gen_index + 1) as usize
            } else {
                old(self).current_gen_index
            },
    {
        let dims = self.features.len();
        let generation = summarize(&self.current_results, dims);
        self.weights = copy_weights(&generation.weights);
        self.st_dev = copy_spreads(&generation.std_dev);
        self.current_gen = None;
        self.current_results = Vec::new();
        self.current_model_index = 0;
        if self.current_gen_index < usize::MAX {
            self.current_gen_index = self.current_gen_index + 1;
        }
        generation
    }
}

} // verus!
