use tetris_ai::board::{Board, BOARD_HEIGHT, BOARD_WIDTH};
use tetris_ai::error::Error;
use tetris_ai::feature::{Weights, WeightsMap};
use tetris_ai::piece::{Piece, N_PIECES};
use tetris_ai::rng::{gen_random_piece, needs_reroll, piece_from_rolls};
use tetris_ai::search::move_dijkstra;
use tetris_ai::simulator::{
    choose_landing, choose_landing_with, judge, landing_values, pick_index, tie_draws,
    Simulator, Verdict,
};
use tetris_ai::state::{State, Stats};

fn piece(index: usize) -> Piece {
    Piece::from_index(index).unwrap()
}

#[test]
fn rolls_give_pieces() {
    for first in 0..N_PIECES {
        assert_eq!(piece_from_rolls(None, first, 3), piece(first));
        assert_eq!(piece_from_rolls(Some((first + 1) % 7), first, 3), piece(first));
        assert_eq!(piece_from_rolls(Some(first), first, 3), piece(3));
        assert!(!needs_reroll(None, first));
        assert!(needs_reroll(Some(first), first));
    }
    assert!(needs_reroll(None, N_PIECES));
    assert!(needs_reroll(Some(2), N_PIECES));
    for second in 0..N_PIECES {
        assert_eq!(piece_from_rolls(None, N_PIECES, second), piece(second));
        assert_eq!(piece_from_rolls(Some(5), N_PIECES, second), piece(second));
    }
}

#[test]
fn drawn_pieces_are_of_the_catalog() {
    let mut seen = [0usize; N_PIECES];
    let mut previous = None;
    let mut repeats = 0;
    for _ in 0..7000 {
        let p = gen_random_piece(previous);
        assert!(p.index() < N_PIECES);
        if previous == Some(p.index()) {
            repeats += 1;
        }
        seen[p.index()] += 1;
        previous = Some(p.index());
    }
    assert!(seen.iter().all(|n| *n > 500));
    // a repeat needs a reroll that gives the same piece again
    assert!(repeats < 600);
}

#[test]
fn scores_against_the_best() {
    assert_eq!(judge(None, -5), Verdict::Better);
    assert_eq!(judge(None, i128::MIN), Verdict::Better);
    assert_eq!(judge(Some(3), 4), Verdict::Better);
    assert_eq!(judge(Some(3), 3), Verdict::Tie);
    assert_eq!(judge(Some(3), 2), Verdict::Worse);
}

#[test]
fn fresh_simulators() {
    let sim = Simulator::new();
    assert_eq!(sim.stats(), Stats::default());
    assert_eq!(sim.board().heights(), &[0; BOARD_WIDTH]);
    assert!(sim.path().is_none());
    assert!(!sim.state().game_over());
    assert_eq!(sim.board_data(), vec![0u8; BOARD_HEIGHT * BOARD_WIDTH]);
    assert!(Simulator::new_with_preset("score").is_ok());
    assert!(Simulator::new_with_preset("infinite").is_ok());
    assert_eq!(Simulator::new_with_preset("best").err(), Some(Error::UnknownPreset));
    let sim = Simulator::default();
    assert_eq!(sim.stats().steps, 0);
}

#[test]
fn game_over_where_the_spawn_is_blocked() {
    let mut board = Board::default();
    for r in 0..BOARD_HEIGHT {
        for c in 3..7 {
            board.fill_cell(r, c);
        }
    }
    let weights = Weights::from_preset("score").unwrap();
    let mut sim = Simulator::new_with_state(State::new(board), weights);
    assert!(!sim.step_with(piece(1)));
    assert!(sim.state().game_over());
    assert_eq!(sim.stats(), Stats::default());
    assert_eq!(sim.board().get_data(), board.get_data());
    assert!(sim.path().is_none());
    let weights = Weights::from_preset("score").unwrap();
    let mut sim = Simulator::new_with_state(State::new(board), weights);
    assert!(!sim.step());
    assert!(sim.state().game_over());
    sim.run();
    sim.run_for(10);
    assert_eq!(sim.stats().steps, 0);
}

#[test]
fn o_pieces_go_to_the_side_with_the_score_preset() {
    // a second O on the first costs its landing height, 2 * 3.8, but saves
    // two column and gains two row transitions against one beside it:
    // -32.0 against -32.6
    let left = vec![(18, 0), (16, 0), (18, 2), (16, 2), (18, 4)];
    let right = vec![(18, 8), (16, 8), (18, 6), (16, 6), (18, 4)];
    let mut sides = [0, 0];
    for _ in 0..40 {
        let mut sim = Simulator::new_with_preset("score").unwrap();
        let mut placed = Vec::new();
        for _ in 0..5 {
            assert!(sim.step_with(piece(4)));
            let m = sim.path().unwrap().final_move();
            assert_eq!(sim.state().delta().unwrap().mv, m);
            assert!(m.pos.row + 2 <= BOARD_HEIGHT as isize);
            placed.push((m.pos.row, m.pos.col));
        }
        assert!(placed == left || placed == right);
        sides[if placed == left { 0 } else { 1 }] += 1;
        assert_eq!(sim.stats(), Stats { steps: 5, lines: 0, score: 0, level: 0, tetrises: 0 });
    }
    // both sides are as good for the first piece, so both are taken
    assert!(sides[0] > 0 && sides[1] > 0);
}

#[test]
fn the_best_landing_is_taken() {
    // one weight only: cleared cells of the piece pay, so the T must lie flat in the gap
    let mut board = Board::default();
    for c in 0..BOARD_WIDTH {
        if !(3..6).contains(&c) {
            board.fill_cell(19, c);
        }
    }
    let features = tetris_ai::feature::Features::from_names(&["eroded_cells"]).unwrap();
    let weights = features.with_weights(&[1000]).unwrap();
    let mut sim = Simulator::new_with_state(State::new(board), weights);
    sim.set_time_pressure(false);
    assert!(sim.step_with(piece(1)));
    let m = sim.path().unwrap().final_move();
    // the T pointing up lies in rows 0 and 1 of its matrix
    assert_eq!((m.pos.rot, m.pos.row, m.pos.col), (2, 18, 3));
    assert_eq!(sim.state().delta().unwrap().cleared, vec![19]);
    assert_eq!(sim.state().delta().unwrap().eroded, 3);
    assert_eq!(sim.stats().score, 40);
}

#[test]
fn runs_count_their_steps() {
    let mut sim = Simulator::new_with_preset("score").unwrap();
    sim.run_for(60);
    let stats = sim.stats();
    assert!(stats.steps <= 60);
    assert!(stats.steps == 60 || sim.state().game_over());
    assert_eq!(stats.level, stats.lines / 10);
    assert!(stats.tetrises <= stats.steps);
    let filled = sim.board_data().iter().filter(|c| **c != 0).count() as u64;
    assert_eq!(filled + 10 * stats.lines, 4 * stats.steps);
    sim.reset();
    assert_eq!(sim.stats(), Stats::default());
    assert!(sim.path().is_none());
    assert_eq!(sim.board_data(), vec![0u8; 200]);
}

#[test]
fn a_game_without_weights_ends() {
    let mut sim = Simulator::new();
    sim.run();
    assert!(sim.state().game_over());
    assert!(sim.stats().steps > 0);
}

#[test]
fn weights_can_be_replaced() {
    let mut sim = Simulator::new();
    assert!(sim.update_weights(WeightsMap::preset("infinite").unwrap()).is_ok());
    let bad = WeightsMap::from_features_values(&["holes"], &[1]).unwrap();
    assert_eq!(sim.update_weights(bad).err(), Some(Error::UnknownFeature));
    sim.set_time_pressure(false);
    sim.run_for(20);
    assert!(sim.stats().steps <= 20);
}

#[test]
fn the_landing_of_the_greatest_value_is_chosen() {
    let state = State::default();
    let weights = Weights::from_preset("score").unwrap();
    assert!(choose_landing(&state, &weights, Vec::new()).is_none());
    for index in 0..N_PIECES {
        let paths = move_dijkstra(state.board(), piece(index), Some(0));
        let values: Vec<i128> = paths
            .iter()
            .map(|path| weights.evaluate(&state.future(path.final_move())))
            .collect();
        let best = *values.iter().max().unwrap();
        let (next, path) = choose_landing(&state, &weights, paths.clone()).unwrap();
        assert!(paths.contains(&path));
        assert_eq!(weights.evaluate(&next), best);
        assert_eq!(next.delta().unwrap().mv, path.final_move());
        assert_eq!(next.stats().steps, 1);
    }
}

#[test]
fn draws_decide_among_equal_values() {
    assert_eq!(pick_index(&vec![], &vec![]), None);
    assert_eq!(pick_index(&vec![], &vec![0, 0]), None);
    assert_eq!(pick_index(&vec![-4], &vec![]), Some(0));
    assert_eq!(pick_index(&vec![1, 3, 2], &vec![0, 0]), Some(1));
    assert_eq!(pick_index(&vec![5, 5, 5], &vec![0, 1]), Some(1));
    assert_eq!(pick_index(&vec![5, 5, 5], &vec![1, 0]), Some(2));
    assert_eq!(pick_index(&vec![5, 5, 5], &vec![0, 0]), Some(2));
    assert_eq!(pick_index(&vec![5, 5, 5], &vec![7, 7]), Some(0));
    // without a draw the candidate held stays
    assert_eq!(pick_index(&vec![5, 5, 5], &vec![]), Some(0));
    assert_eq!(pick_index(&vec![5, 5, 5], &vec![0]), Some(1));
    // a greater value needs no draw; a value below the best uses none
    assert_eq!(pick_index(&vec![2, 2, 3, 1, 3], &vec![0, 1]), Some(2));
    assert_eq!(pick_index(&vec![2, 2, 3, 1, 3], &vec![1, 0]), Some(4));
    assert_eq!(pick_index(&vec![i128::MIN, i128::MAX, i128::MAX], &vec![0]), Some(2));
}

#[test]
fn one_draw_is_made_for_each_tie() {
    assert_eq!(tie_draws(&vec![]), Vec::<usize>::new());
    assert_eq!(tie_draws(&vec![9]), Vec::<usize>::new());
    assert_eq!(tie_draws(&vec![1, 2, 3, 2, 1]), Vec::<usize>::new());
    for _ in 0..50 {
        let draws = tie_draws(&vec![5, 5, 5, 1, 5, 6, 6]);
        assert_eq!(draws.len(), 4);
        assert!(draws[0] < 2 && draws[1] < 3 && draws[2] < 4 && draws[3] < 2);
    }
    // among equal values the draw of the j-th tie ranges over j + 2 candidates
    let mut high = [0usize; 5];
    for _ in 0..300 {
        let draws = tie_draws(&vec![7; 6]);
        assert_eq!(draws.len(), 5);
        for (j, draw) in draws.iter().enumerate() {
            assert!(*draw <= j + 1);
            high[j] = high[j].max(*draw);
        }
    }
    assert_eq!(high, [1, 2, 3, 4, 5]);
    // after a greater value the count begins anew
    for _ in 0..50 {
        let draws = tie_draws(&vec![1, 1, 1, 2, 2]);
        assert!(draws[0] < 2 && draws[1] < 3 && draws[2] < 2);
    }
    let mut zeros = 0;
    for _ in 0..400 {
        zeros += tie_draws(&vec![0, 0]).iter().filter(|d| **d == 0).count();
    }
    assert!(zeros > 100 && zeros < 300);
}

#[test]
fn the_given_draws_choose_the_landing() {
    let state = State::default();
    let weights = Weights::from_preset("score").unwrap();
    let paths = move_dijkstra(state.board(), piece(4), Some(0));
    let values = landing_values(&state, &weights, &paths);
    assert_eq!(values.len(), paths.len());
    for (path, value) in paths.iter().zip(values.iter()) {
        assert_eq!(*value, weights.evaluate(&state.future(path.final_move())));
    }
    // the O piece is best at either edge: -19.0 there
    let best = *values.iter().max().unwrap();
    assert_eq!(best, -19000);
    let edges: Vec<usize> = (0..paths.len()).filter(|i| values[*i] == best).collect();
    assert_eq!(edges.len(), 2);
    for i in &edges {
        let col = paths[*i].final_move().pos.col;
        assert!(col == 0 || col == 8);
        assert_eq!(paths[*i].final_move().pos.row, 18);
    }
    // every tie on the way uses a draw, also one among lesser values
    let all = paths.len();
    for (draws, chosen) in [(vec![], edges[0]), (vec![1; all], edges[0]), (vec![0; all], edges[1])] {
        assert_eq!(pick_index(&values, &draws), Some(chosen));
        let (next, path) = choose_landing_with(&state, &weights, paths.clone(), &draws).unwrap();
        assert_eq!(path, paths[chosen]);
        assert_eq!(next.delta().unwrap().mv, path.final_move());
        assert_eq!(weights.evaluate(&next), best);
        let mut heights = [0; BOARD_WIDTH];
        heights[path.final_move().pos.col as usize] = 2;
        heights[path.final_move().pos.col as usize + 1] = 2;
        assert_eq!(next.board().heights(), &heights);
    }
    assert!(choose_landing_with(&state, &weights, Vec::new(), &vec![0]).is_none());
}

#[test]
fn a_step_places_a_piece_where_every_piece_fits() {
    for _ in 0..50 {
        let mut sim = Simulator::new_with_preset("infinite").unwrap();
        assert!(sim.step());
        assert_eq!(sim.stats().steps, 1);
        assert!(!sim.state().game_over());
        assert!(sim.path().is_some());
    }
}

#[test]
fn a_run_to_a_level_stops_there() {
    let mut sim = Simulator::new_with_preset("infinite").unwrap();
    sim.run_to_level(1);
    let stats = sim.stats();
    assert!(sim.state().game_over() || (stats.level >= 1 && stats.lines < 14));
    assert_eq!(stats.level, stats.lines / 10);
    let mut sim = Simulator::new();
    sim.run_to_level(0);
    assert!(sim.stats().steps <= 1);
}
