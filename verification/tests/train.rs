use tetris_ai::error::Error;
use tetris_ai::feature::{Features, Weights};
use tetris_ai::learn::{Learner, TEST_ITERATIONS};
use tetris_ai::numeric::{div_round, isqrt};
use tetris_ai::state::Stats;
use tetris_ai::train::{
    kept_statistics, summarize, EvalResult, TrainCriteria, Trainer, EVAL_ITERATIONS, FITNESS_LIMIT,
    INITIAL_DEVIATION, KEPT_PER_GEN, MODELS_PER_GEN, STABLE_THRESHOLD, WEIGHT_RANGE,
};

const NAMES: [&str; 6] =
    ["col_trans", "row_trans", "pits", "landing_height", "eroded_cells", "cuml_wells"];

#[test]
fn constants() {
    assert_eq!(MODELS_PER_GEN, 100);
    assert_eq!(KEPT_PER_GEN, 10);
    assert_eq!(EVAL_ITERATIONS, 10000);
    assert_eq!(WEIGHT_RANGE, 10000);
    assert_eq!(STABLE_THRESHOLD, 250);
    assert_eq!(INITIAL_DEVIATION, 10000);
    assert_eq!(FITNESS_LIMIT, 1u128 << 100);
}

#[test]
fn rounding_and_roots() {
    assert_eq!(div_round(7, 2), 4);
    assert_eq!(div_round(-7, 2), -4);
    assert_eq!(div_round(5, 2), 3);
    assert_eq!(div_round(-5, 2), -3);
    assert_eq!(div_round(14, 10), 1);
    assert_eq!(div_round(15, 10), 2);
    assert_eq!(div_round(-14, 10), -1);
    assert_eq!(div_round(0, 3), 0);
    assert_eq!(div_round(9, 3), 3);
    assert_eq!(isqrt(0), 0);
    assert_eq!(isqrt(1), 1);
    assert_eq!(isqrt(3), 1);
    assert_eq!(isqrt(4), 2);
    assert_eq!(isqrt(99), 9);
    assert_eq!(isqrt(100), 10);
    assert_eq!(isqrt(1_000_000_007), 31622);
    assert_eq!(isqrt((1u128 << 96) - 1), (1u64 << 48) - 1);
}

#[test]
fn criteria_by_name() {
    assert_eq!(TrainCriteria::from_str("score"), Ok(TrainCriteria::Score));
    assert_eq!(TrainCriteria::from_str("level"), Ok(TrainCriteria::Level));
    assert_eq!(TrainCriteria::from_str("tetrises"), Ok(TrainCriteria::Tetrises));
    assert_eq!(TrainCriteria::from_str("lines"), Err(Error::UnknownCriterion));
    assert_eq!(TrainCriteria::from_str("Score"), Err(Error::UnknownCriterion));
}

#[test]
fn fitness_of_a_game() {
    let stats = Stats { steps: 50, lines: 23, score: 4100, level: 2, tetrises: 3 };
    assert_eq!(TrainCriteria::Score.fitness(stats), 4100);
    assert_eq!(TrainCriteria::Level.fitness(stats), 23);
    assert_eq!(TrainCriteria::Tetrises.fitness(stats), 4100 * 10 * 4);
    let none = Stats::default();
    assert_eq!(TrainCriteria::Tetrises.fitness(none), 0);
}

#[test]
fn evaluation_plays_a_game() {
    let weights = Weights::from_preset("score").unwrap();
    let lines = TrainCriteria::Level.eval(weights);
    assert!(lines <= FITNESS_LIMIT);
    let fitness = TrainCriteria::Level.eval(Weights::default());
    // without weights the pieces pile up
    assert!(fitness < 300);
}

fn result(weights: &[i32], score: u128) -> EvalResult {
    EvalResult { weights: weights.to_vec(), score }
}

#[test]
fn summary_of_a_small_generation() {
    // twelve models; the ten fittest are kept, of equal ones the earlier
    let mut results = Vec::new();
    for i in 0..12u128 {
        let w = i as i32 * 100;
        results.push(result(&[w, -2 * w, 5], if i < 2 { 1 } else { 10 + (i % 3) }));
    }
    // scores: 1, 1, 12, 10, 11, 12, 10, 11, 12, 10, 11, 12; kept: models 2..12
    let g = summarize(&results, 3);
    assert_eq!(g.max, 12);
    assert_eq!(g.min, 1);
    assert_eq!(g.mean, (1 + 1 + 12 * 4 + 10 * 3 + 11 * 3) / 12);
    // means: 650, -1300, 5; deviations: floor(sqrt(82500)) = 287, floor(sqrt(330000)) = 574, 0
    // scaled by 10000 / 1300
    assert_eq!(g.weights, vec![5000, -10000, 38]);
    assert_eq!(g.std_dev, vec![2208, 4415, 0]);
}

#[test]
fn summary_keeps_the_earlier_of_equal_models() {
    let mut results = Vec::new();
    for i in 0..20 {
        results.push(result(&[if i < 10 { 300 } else { 9000 }], 7));
    }
    let g = summarize(&results, 1);
    assert_eq!(g.weights, vec![10000]);
    assert_eq!(g.std_dev, vec![0]);
    assert_eq!((g.max, g.min, g.mean), (7, 7, 7));
    let mut results = Vec::new();
    for i in 0..20 {
        results.push(result(&[if i < 10 { 300 } else { 9000 }], if i < 10 { 7 } else { 8 }));
    }
    let g = summarize(&results, 1);
    assert_eq!(g.weights, vec![10000]);
    assert_eq!((g.max, g.min, g.mean), (8, 7, 7));
}

#[test]
fn summary_of_zero_weights_is_not_scaled() {
    let results = vec![result(&[0, 0], 3), result(&[0, 0], 4)];
    let g = summarize(&results, 2);
    assert_eq!(g.weights, vec![0, 0]);
    assert_eq!(g.std_dev, vec![0, 0]);
    let results = vec![result(&[-4, 0], 3), result(&[4, 0], 4)];
    let g = summarize(&results, 2);
    assert_eq!(g.weights, vec![0, 0]);
    assert_eq!(g.std_dev, vec![4, 0]);
}

#[test]
fn a_fresh_trainer() {
    let features = Features::from_names(&NAMES).unwrap();
    let trainer = Trainer::new(features, TrainCriteria::Score);
    assert_eq!(trainer.weights(), &vec![0; 6]);
    assert_eq!(trainer.st_dev(), &vec![10000; 6]);
    assert!(trainer.needs_generation());
    assert!(!trainer.is_stable());
    assert_eq!(trainer.features().len(), 6);
    assert!(Trainer::from_feature_names(&NAMES, "level").is_ok());
    assert_eq!(
        Trainer::from_feature_names(&NAMES, "speed").err(),
        Some(Error::UnknownCriterion)
    );
    assert_eq!(
        Trainer::from_feature_names(&["pits", "bumps"], "level").err(),
        Some(Error::UnknownFeature)
    );
    let empty = Trainer::from_feature_names(&[], "level").unwrap();
    assert!(empty.is_stable());
}

#[test]
fn generations_are_checked() {
    let mut trainer = Trainer::from_feature_names(&["pits", "row_trans"], "level").unwrap();
    assert!(trainer.step().is_none());
    assert_eq!(trainer.begin_generation(vec![vec![0, 0]; 99]).err(), Some(Error::LengthMismatch));
    assert_eq!(trainer.begin_generation(vec![vec![0]; 100]).err(), Some(Error::LengthMismatch));
    let mut models = vec![vec![0, 0]; 100];
    models[57] = vec![1, 2, 3];
    assert_eq!(trainer.begin_generation(models).err(), Some(Error::LengthMismatch));
    assert!(trainer.needs_generation());
    assert!(trainer.begin_generation(vec![vec![0, 0]; 100]).is_ok());
    assert!(!trainer.needs_generation());
    assert_eq!(
        trainer.begin_generation(vec![vec![0, 0]; 100]).err(),
        Some(Error::GenerationPending)
    );
}

#[test]
fn a_generation_step_by_step() {
    let mut trainer = Trainer::from_feature_names(&["pits", "row_trans"], "score").unwrap();
    let models: Vec<Vec<i32>> = (0..100).map(|i| vec![i * 10, -i * 20]).collect();
    assert!(trainer.begin_generation(models.clone()).is_ok());
    for i in 0..100usize {
        // the fitness rises with the model, so that the last ten are kept
        let state = trainer.record(i as u128 * 3);
        assert_eq!(state.gen_index(), 1);
        assert_eq!(state.model_index(), i + 1);
        assert_eq!(state.eval_result().weights, models[i]);
        assert_eq!(state.eval_result().score, i as u128 * 3);
        if i < 99 {
            assert!(state.generation().is_none());
            assert!(!trainer.needs_generation());
            assert_eq!(trainer.weights(), &vec![0, 0]);
        } else {
            let g = state.generation().unwrap();
            assert_eq!((g.max, g.min, g.mean), (297, 0, 148));
            // means 945 and -1890, deviations 28 and 57, scaled by 10000 / 1890
            assert_eq!(g.weights, vec![5000, -10000]);
            assert_eq!(g.std_dev, vec![148, 302]);
            assert_eq!(trainer.weights(), &g.weights);
            assert_eq!(trainer.st_dev(), &g.std_dev);
        }
    }
    assert!(trainer.needs_generation());
    assert!(!trainer.is_stable());
    assert!(trainer.begin_generation(vec![vec![5000, -10000]; 100]).is_ok());
    for _ in 0..100 {
        let state = trainer.record(1);
        assert_eq!(state.gen_index(), 2);
    }
    assert_eq!(trainer.weights(), &vec![5000, -10000]);
    assert_eq!(trainer.st_dev(), &vec![0, 0]);
    assert!(trainer.is_stable());
    trainer.reset();
    assert_eq!(trainer.weights(), &vec![0, 0]);
    assert_eq!(trainer.st_dev(), &vec![10000, 10000]);
    assert!(trainer.needs_generation());
    assert!(!trainer.is_stable());
}

#[test]
fn a_step_judges_one_model() {
    let mut trainer = Trainer::from_feature_names(&NAMES, "level").unwrap();
    assert!(trainer.begin_generation(vec![vec![0; 6]; 100]).is_ok());
    let state = trainer.step().unwrap();
    assert_eq!(state.gen_index(), 1);
    assert_eq!(state.model_index(), 1);
    assert_eq!(state.eval_result().weights, vec![0; 6]);
    assert!(state.generation().is_none());
    let state = trainer.step().unwrap();
    assert_eq!(state.model_index(), 2);
}

#[test]
fn statistics_of_the_kept_models() {
    let mut results = Vec::new();
    for i in 0..12u128 {
        let w = i as i32 * 100;
        results.push(result(&[w, -2 * w, 5], if i < 2 { 1 } else { 10 + (i % 3) }));
    }
    assert_eq!(kept_statistics(&results, 0), (650, 287));
    assert_eq!(kept_statistics(&results, 1), (-1300, 574));
    assert_eq!(kept_statistics(&results, 2), (5, 0));
    let extremes = vec![result(&[i32::MAX], 1), result(&[i32::MIN], 1)];
    // the mean square distance from -1 is 2^62 - 2^31, just below the square of 2^31
    assert_eq!(kept_statistics(&extremes, 0), (-1, (1 << 31) - 1));
    let one = vec![result(&[i32::MIN], 0)];
    assert_eq!(kept_statistics(&one, 0), (i32::MIN, 0));
}

#[test]
fn a_learner_learns_from_the_best() {
    assert_eq!(TEST_ITERATIONS, 50);
    let mut learner = Learner::default();
    {
        let (map, spreads) = learner.state();
        assert_eq!(map.names(), NAMES.to_vec());
        assert_eq!(map.get(3), ("landing_height", 0));
        assert_eq!(spreads, &vec![10000; 6]);
    }
    let results: Vec<EvalResult> =
        (0..100).map(|i| result(&[i, 2 * i, 0, -i, 7, 1000 * i], i as u128)).collect();
    learner.learn(&results);
    let (map, spreads) = learner.state();
    // the last ten models are kept: the mean of 90..100 is 94.5, rounded away from zero
    let weights: Vec<i32> = (0..6).map(|i| map.get(i).1).collect();
    assert_eq!(weights, vec![95, 189, 0, -95, 7, 94500]);
    assert_eq!(spreads, &vec![2, 5, 0, 2, 0, 2872]);
}

#[test]
fn a_learner_tries_a_generation() {
    let mut learner = Learner::default();
    assert_eq!(learner.step(&vec![vec![0; 6]; 99]).err(), Some(Error::LengthMismatch));
    assert_eq!(learner.step(&vec![vec![0; 5]; 100]).err(), Some(Error::LengthMismatch));
    let models: Vec<Vec<i32>> = vec![vec![-6800, -2700, -12700, -3800, -10000, -400]; 100];
    assert!(learner.step(&models).is_ok());
    let (map, spreads) = learner.state();
    let weights: Vec<i32> = (0..6).map(|i| map.get(i).1).collect();
    assert_eq!(weights, models[0]);
    assert_eq!(spreads, &vec![0; 6]);
}
