use rand::Rng;
use tetris_ai::board::{Board, BOARD_HEIGHT, BOARD_WIDTH};
use tetris_ai::error::Error;
use tetris_ai::feature::{
    col_trans, cuml_wells, eroded_cells, evaluate, landing_height, pits, row_trans, same_text,
    wells, Feature, Features, Weights, WeightsMap, WEIGHT_SCALE,
};
use tetris_ai::moves::{move_drop, Move, Position};
use tetris_ai::piece::Piece;
use tetris_ai::state::{Delta, State};

const TEST_ITERATIONS: usize = 100;

const TEST_FEATURES: [&str; 6] =
    ["row_trans", "col_trans", "cuml_wells", "pits", "landing_height", "eroded_cells"];

fn random_board() -> Board {
    let mut board = Board::default();
    let mut rng = rand::rng();
    let iterations = rng.random_range(0..=BOARD_HEIGHT * BOARD_WIDTH);
    for _ in 0..iterations {
        let col = rng.random_range(0..BOARD_WIDTH);
        let col_height = board.height(col);
        if col_height == BOARD_HEIGHT {
            continue;
        }
        let row = BOARD_HEIGHT - col_height - 1;
        board.fill_cell(row, col);
    }
    for r in 0..BOARD_HEIGHT {
        for c in 0..BOARD_WIDTH {
            if board.get(r, c).filled() && rng.random_bool(0.05) {
                board.clear_cell(r, c);
            }
        }
    }
    board.clear_full();
    board
}

/// Generates a random state by dropping pieces until no more moves are possible.
fn random_state() -> State {
    let mut state = State::new(Board::default());
    let mut rng = rand::rng();
    loop {
        let piece = Piece::from_index(rng.random_range(0..7)).unwrap();
        let possible_moves = move_drop(state.board(), piece);
        if possible_moves.is_empty() {
            break;
        }
        let pos = possible_moves[rng.random_range(0..possible_moves.len())];
        state = state.future(Move { piece, pos });
    }
    state
}

/// The features as their definitions read, computed from the cells alone.
fn reference_feature(state: &State, feature_name: &str) -> u64 {
    let filled: Vec<Vec<bool>> = state
        .board()
        .get_data()
        .iter()
        .map(|row| row.iter().map(|cell| cell.filled()).collect())
        .collect();
    let heights: Vec<i64> = (0..BOARD_WIDTH)
        .map(|c| match (0..BOARD_HEIGHT).find(|r| filled[*r][c]) {
            Some(r) => (BOARD_HEIGHT - r) as i64,
            None => 0,
        })
        .collect();
    match feature_name {
        "row_trans" => (0..BOARD_HEIGHT)
            .map(|r| (0..BOARD_WIDTH - 1).filter(|c| filled[r][*c] != filled[r][*c + 1]).count())
            .sum::<usize>() as u64,
        "col_trans" => (0..BOARD_WIDTH)
            .map(|c| (0..BOARD_HEIGHT - 1).filter(|r| filled[*r][c] != filled[*r + 1][c]).count())
            .sum::<usize>() as u64,
        "pits" => (0..BOARD_WIDTH)
            .map(|c| {
                let top = BOARD_HEIGHT - heights[c] as usize;
                (top..BOARD_HEIGHT).filter(|r| !filled[*r][c]).count()
            })
            .sum::<usize>() as u64,
        "cuml_wells" => (0..BOARD_WIDTH)
            .map(|c| {
                let w = if c == 0 {
                    heights[1] - heights[0]
                } else if c == BOARD_WIDTH - 1 {
                    heights[c - 1] - heights[c]
                } else {
                    heights[c - 1].min(heights[c + 1]) - heights[c]
                }
                .max(0);
                (w * (w + 1) / 2) as u64
            })
            .sum(),
        "landing_height" => match state.delta() {
            Some(delta) => {
                let low = delta.mv.pos.row + delta.mv.pattern().rows() as isize;
                (BOARD_HEIGHT as isize - low.min(BOARD_HEIGHT as isize)) as u64
            }
            None => 0,
        },
        "eroded_cells" => match state.delta() {
            Some(delta) => {
                let pattern = delta.mv.pattern();
                let mut eroded = 0;
                for row in &delta.cleared {
                    let r = *row as isize - delta.mv.pos.row;
                    if r >= 0 && r < pattern.rows() as isize {
                        eroded += pattern.get_row(r as usize).unwrap().iter().filter(|f| **f).count();
                    }
                }
                eroded as u64
            }
            None => 0,
        },
        _ => unreachable!(),
    }
}

fn check_features(state: &State) {
    for feature_name in TEST_FEATURES {
        let feature = Feature::from_name(feature_name).unwrap();
        let expected = reference_feature(state, feature_name);
        let found = feature.value(state);
        if expected != found {
            panic!(
                "Mismatch for feature {}\nReference: {}\nLibrary: {}\nBoard {}\nHeights: {:?}\nDelta: {:?}",
                feature_name,
                expected,
                found,
                state.board().to_text(),
                state.board().heights(),
                state.delta()
            );
        }
    }
}

#[test]
fn feature_test_features_random_board() {
    for _ in 0..TEST_ITERATIONS {
        check_features(&State::new(random_board()));
    }
}

#[test]
fn feature_test_features_random_state() {
    for _ in 0..TEST_ITERATIONS {
        check_features(&random_state());
    }
}

#[test]
fn test_landing_heigt() {
    let lh = landing_height(&State::default().test_delta(Delta {
        mv: Move {
            piece: Piece::from_index(0).unwrap(),
            pos: Position { row: 13, col: 4, rot: 1 },
        },
        eroded: 0,
        cleared: vec![],
    }));
    // 3 rows from the bottom of the board
    assert_eq!(lh as usize, 3);
}

#[test]
fn landing_height_and_eroded_cells_without_a_placement() {
    let state = State::default();
    assert_eq!(landing_height(&state), 0);
    assert_eq!(eroded_cells(&state), 0);
    let delta = |row: isize| Delta {
        mv: Move { piece: Piece::from_index(1).unwrap(), pos: Position { rot: 0, row, col: 0 } },
        eroded: 2,
        cleared: vec![],
    };
    assert_eq!(landing_height(&State::default().test_delta(delta(17))), 0);
    assert_eq!(landing_height(&State::default().test_delta(delta(30))), 0);
    assert_eq!(landing_height(&State::default().test_delta(delta(0))), 17);
    assert_eq!(landing_height(&State::default().test_delta(delta(-1))), 18);
    assert_eq!(eroded_cells(&State::default().test_delta(delta(0))), 2);
}

fn sample_state() -> State {
    let text = "
..........
..........
..........
..........
..........
..........
..........
..........
..........
..........
..........
..........
..........
..........
..........
#.........
#........#
#.#..#...#
#.##.#...#
#.#..##.##";
    State::new(Board::from_str(text).unwrap())
}

#[test]
fn features_of_a_known_board() {
    let state = sample_state();
    assert_eq!(state.board().heights(), &[5, 0, 3, 2, 0, 3, 1, 0, 1, 4]);
    assert_eq!(row_trans(&state), 1 + 2 + 6 + 6 + 6);
    assert_eq!(col_trans(&state), 1 + 0 + 1 + 2 + 0 + 1 + 1 + 0 + 1 + 1);
    assert_eq!(pits(&state), 1);
    assert_eq!(wells(&state), [0, 3, 0, 0, 2, 0, 0, 1, 0, 0]);
    assert_eq!(cuml_wells(&state), 6 + 3 + 1);
    assert_eq!(landing_height(&state), 0);
    assert_eq!(eroded_cells(&state), 0);
}

#[test]
fn features_of_the_empty_board() {
    let state = State::default();
    for feature in Feature::all() {
        assert_eq!(feature.value(&state), 0);
    }
    assert_eq!(wells(&state), [0; 10]);
}

#[test]
fn feature_names() {
    let names: Vec<&str> = Feature::all().iter().map(|f| f.name()).collect();
    assert_eq!(
        names,
        vec!["col_trans", "row_trans", "pits", "landing_height", "eroded_cells", "cuml_wells"]
    );
    for feature in Feature::all() {
        assert_eq!(Feature::from_name(feature.name()), Some(feature));
    }
    assert_eq!(Feature::from_name("wells"), None);
    assert_eq!(Feature::from_name(""), None);
    assert_eq!(Feature::from_name("pits "), None);
    assert!(same_text("pits", "pits"));
    assert!(!same_text("pits", "pit"));
    assert!(!same_text("pits", "pitz"));
}

#[test]
fn presets() {
    assert_eq!(WEIGHT_SCALE, 1000);
    let score = Weights::from_preset("score").unwrap();
    assert_eq!(score.iter_values(), vec![-6800, -2700, -12700, -3800, -10000, -400]);
    let infinite = Weights::from_preset("infinite").unwrap();
    assert_eq!(infinite.clone().into_values(), vec![-8400, -2400, -10000, -5000, 10000, -3500]);
    assert_eq!(Weights::from_preset("levels").err(), Some(Error::UnknownPreset));
    assert_eq!(Weights::from_preset("").err(), Some(Error::UnknownPreset));
    let map = WeightsMap::preset("score").unwrap();
    assert_eq!(
        map.names(),
        vec!["col_trans", "row_trans", "pits", "landing_height", "eroded_cells", "cuml_wells"]
    );
    assert_eq!(map.get(2), ("pits", -12700));
    assert_eq!(map.len(), 6);
    assert_eq!(WeightsMap::preset("nothing").err(), Some(Error::UnknownPreset));
}

#[test]
fn evaluation_is_the_weighted_sum() {
    let state = sample_state();
    let weights = Weights::from_preset("score").unwrap();
    let expected: i128 = 8 * -6800 + 21 * -2700 + 1 * -12700 + 0 * -3800 + 0 * -10000 + 10 * -400;
    assert_eq!(expected, -127800);
    assert_eq!(weights.evaluate(&state), expected);
    assert_eq!(evaluate(&state, &weights), expected);
    assert_eq!(weights.evaluate(&State::default()), 0);
    assert_eq!(Weights::default().evaluate(&state), 0);
    let features = Features::from_names(&["pits", "pits", "cuml_wells"]).unwrap();
    let doubled = features.with_weights(&[1000, 500, -2000]).unwrap();
    assert_eq!(doubled.evaluate(&state), 1000 + 500 - 20000);
}

#[test]
fn weights_and_names() {
    let features = Features::from_names(&["pits", "row_trans"]).unwrap();
    assert_eq!(features.len(), 2);
    assert!(!features.is_empty());
    assert_eq!(features.get(1), Feature::RowTrans);
    assert!(Features::from_names(&[]).unwrap().is_empty());
    assert_eq!(Features::from_names(&["pits", "rows"]).err(), Some(Error::UnknownFeature));
    assert_eq!(features.with_weights(&[1]).err(), Some(Error::LengthMismatch));
    assert_eq!(features.with_weights(&[1, 2, 3]).err(), Some(Error::LengthMismatch));
    let mut weights = features.clone().with_weights(&[7, -9]).unwrap();
    assert_eq!(weights.len(), 2);
    weights.set_value(0, 11);
    assert_eq!(weights.iter_values(), vec![11, -9]);
    let map = WeightsMap::from_weights(&weights);
    assert_eq!(map.names(), vec!["pits", "row_trans"]);
    assert_eq!(map.get(0), ("pits", 11));
    let back = Weights::from_map(&map).unwrap();
    assert_eq!(back.into_values(), vec![11, -9]);
    let map = WeightsMap::from_features_values(&["pits", "holes"], &[1, 2]).unwrap();
    assert_eq!(Weights::from_map(&map).err(), Some(Error::UnknownFeature));
    assert_eq!(
        WeightsMap::from_features_values(&["pits"], &[1, 2]).err(),
        Some(Error::LengthMismatch)
    );
    let defaults = WeightsMap::defaults();
    assert_eq!(defaults.len(), 6);
    for i in 0..6 {
        assert_eq!(defaults.get(i), (Feature::all()[i].name(), 0));
    }
    assert_eq!(WeightsMap::default().names(), defaults.names());
    assert_eq!(Weights::default().iter_values(), vec![0; 6]);
}
