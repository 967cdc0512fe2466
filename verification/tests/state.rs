use tetris_ai::board::{Board, BOARD_WIDTH};
use tetris_ai::moves::{Move, Position};
use tetris_ai::piece::Piece;
use tetris_ai::state::{Delta, State, Stats};

fn piece(index: usize) -> Piece {
    Piece::from_index(index).unwrap()
}

fn at(index: usize, rot: usize, row: isize, col: isize) -> Move {
    Move { piece: piece(index), pos: Position { rot, row, col } }
}

fn board_with_rows(rows: std::ops::Range<usize>, cols: std::ops::Range<usize>) -> Board {
    let mut board = Board::default();
    for r in rows {
        for c in cols.clone() {
            board.fill_cell(r, c);
        }
    }
    board
}

#[test]
fn fresh_state() {
    let state = State::new(Board::default());
    assert_eq!(state.stats(), Stats::default());
    assert_eq!(state.stats(), Stats { steps: 0, lines: 0, score: 0, level: 0, tetrises: 0 });
    assert!(!state.game_over());
    assert!(state.delta().is_none());
    assert!(state.can_advance());
    let mut state = State::default();
    state.set_game_over();
    assert!(state.game_over());
}

#[test]
fn single_line_clear_scoring() {
    let state = State::new(board_with_rows(19..20, 0..9));
    // the cells of the upright I lie in column col + 2
    let next = state.future(at(0, 1, 16, 7));
    let delta = next.delta().unwrap();
    assert_eq!(delta.cleared, vec![19]);
    assert_eq!(delta.eroded, 1);
    assert_eq!(delta.mv, at(0, 1, 16, 7));
    assert_eq!(next.stats(), Stats { steps: 1, lines: 1, score: 40, level: 0, tetrises: 0 });
    assert!(!next.game_over());
    assert_eq!(next.board().heights(), &[0, 0, 0, 0, 0, 0, 0, 0, 0, 3]);
    for r in 17..20 {
        assert_eq!(next.board().get(r, 9).inner(), 1);
    }
}

#[test]
fn tetris() {
    let state = State::new(board_with_rows(16..20, 0..9));
    let next = state.future(at(0, 1, 16, 7));
    let delta = next.delta().unwrap();
    assert_eq!(delta.cleared, vec![19, 18, 17, 16]);
    assert_eq!(delta.eroded, 4);
    assert_eq!(next.stats(), Stats { steps: 1, lines: 4, score: 1200, level: 0, tetrises: 1 });
    assert_eq!(next.board().heights(), &[0; BOARD_WIDTH]);
    assert_eq!(next.board().get_data(), Board::default().get_data());
}

#[test]
fn points_for_two_and_three_lines() {
    let state = State::new(board_with_rows(18..20, 0..9));
    let next = state.future(at(0, 1, 16, 7));
    assert_eq!(next.delta().unwrap().cleared, vec![19, 18]);
    assert_eq!(next.delta().unwrap().eroded, 2);
    assert_eq!(next.stats(), Stats { steps: 1, lines: 2, score: 100, level: 0, tetrises: 0 });
    let state = State::new(board_with_rows(17..20, 0..9));
    let next = state.future(at(0, 1, 16, 7));
    assert_eq!(next.delta().unwrap().cleared, vec![19, 18, 17]);
    assert_eq!(next.stats(), Stats { steps: 1, lines: 3, score: 300, level: 0, tetrises: 0 });
    assert_eq!(next.board().heights(), &[0, 0, 0, 0, 0, 0, 0, 0, 0, 1]);
}

#[test]
fn placement_without_a_clear() {
    let state = State::default();
    let next = state.future(at(4, 0, 18, 0));
    assert!(next.delta().unwrap().cleared.is_empty());
    assert_eq!(next.delta().unwrap().eroded, 0);
    assert_eq!(next.stats(), Stats { steps: 1, lines: 0, score: 0, level: 0, tetrises: 0 });
    assert_eq!(next.board().heights(), &[2, 2, 0, 0, 0, 0, 0, 0, 0, 0]);
    assert_eq!(next.board().get(18, 0).inner(), 5);
}

#[test]
fn level_and_score_follow_the_lines() {
    // five O pieces side by side fill two rows
    let mut state = State::default();
    let mut score = 0;
    for round in 1..=6u64 {
        for col in [0, 2, 4, 6, 8] {
            let before = state.stats();
            let next = state.future(at(4, 0, 18, col));
            let cleared = next.delta().unwrap().cleared.len() as u64;
            assert_eq!(cleared, if col == 8 { 2 } else { 0 });
            assert_eq!(next.stats().steps, before.steps + 1);
            assert_eq!(next.stats().lines, before.lines + cleared);
            assert_eq!(next.stats().lines == before.lines, cleared == 0);
            assert_eq!(next.stats().level, next.stats().lines / 10);
            assert_eq!(next.stats().tetrises, before.tetrises);
            let points = if cleared == 2 { 100 } else { 0 };
            assert_eq!(next.stats().score - before.score, points * (before.level + 1));
            score += points * (before.level + 1);
            state = next;
        }
        assert_eq!(state.stats().lines, 2 * round);
        assert_eq!(state.board().heights(), &[0; BOARD_WIDTH]);
    }
    assert_eq!(score, 700);
    assert_eq!(state.stats(), Stats { steps: 30, lines: 12, score: 700, level: 1, tetrises: 0 });
}

#[test]
fn eroded_counts_the_cells_of_the_piece_in_cleared_rows() {
    // rows 18 and 19 lack columns 3..6 and column 4: a T fills them
    let mut board = Board::default();
    for c in 0..BOARD_WIDTH {
        if !(3..6).contains(&c) {
            board.fill_cell(18, c);
        }
        if c != 4 {
            board.fill_cell(19, c);
        }
    }
    let next = State::new(board).future(at(1, 0, 17, 3));
    let delta = next.delta().unwrap();
    assert_eq!(delta.cleared, vec![19, 18]);
    assert_eq!(delta.eroded, 4);
    assert_eq!(next.stats().score, 100);
    assert_eq!(next.board().heights(), &[0; BOARD_WIDTH]);
}

#[test]
fn rows_above_a_clear_sink() {
    let mut board = board_with_rows(19..20, 0..9);
    board.fill_cell(18, 0);
    board.fill_cell(10, 5);
    let next = State::new(board).future(at(0, 1, 16, 7));
    assert_eq!(next.delta().unwrap().cleared, vec![19]);
    assert_eq!(next.board().heights(), &[1, 0, 0, 0, 0, 9, 0, 0, 0, 3]);
    assert!(next.board().get(19, 0).filled());
    assert!(next.board().get(11, 5).filled());
    assert!(next.board().get(10, 5).empty());
}

#[test]
fn a_delta_can_be_set() {
    let delta = Delta { mv: at(2, 1, 4, 5), eroded: 3, cleared: vec![7] };
    let state = State::default().test_delta(delta);
    let found = state.delta().unwrap();
    assert_eq!(found.mv, at(2, 1, 4, 5));
    assert_eq!(found.eroded, 3);
    assert_eq!(found.cleared, vec![7]);
    assert_eq!(state.stats(), Stats::default());
}
