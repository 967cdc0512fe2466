use tetris_ai::board::BOARD_WIDTH;
use tetris_ai::game::Game;
use tetris_ai::moves::{Move, Position};
use tetris_ai::piece::Piece;
use tetris_ai::state::Stats;

fn piece(index: usize) -> Piece {
    Piece::from_index(index).unwrap()
}

#[test]
fn a_piece_spawns_sinks_and_is_placed() {
    let mut game = Game::new();
    assert!(game.current_move().is_none());
    assert!(game.step_with(piece(4)));
    assert_eq!(game.current_move(), Some(piece(4).into_start_move()));
    for row in 1..=18 {
        assert!(game.step_with(piece(0)));
        assert_eq!(
            game.current_move(),
            Some(Move { piece: piece(4), pos: Position { rot: 0, row, col: 4 } })
        );
    }
    assert!(game.step_with(piece(0)));
    assert!(game.current_move().is_none());
    assert_eq!(game.state().stats().steps, 1);
    assert_eq!(game.state().board().heights(), &[0, 0, 0, 0, 2, 2, 0, 0, 0, 0]);
}

#[test]
fn moves_by_hand() {
    let mut game = Game::default();
    game.move_left();
    game.rotate();
    assert!(game.current_move().is_none());
    assert!(game.step_with(piece(1)));
    let start = piece(1).into_start_move().pos;
    game.move_left();
    game.move_left();
    assert_eq!(game.current_move().unwrap().pos.col, start.col - 2);
    for _ in 0..10 {
        game.move_left();
    }
    assert_eq!(game.current_move().unwrap().pos.col, 0);
    for _ in 0..20 {
        game.move_right();
    }
    assert_eq!(game.current_move().unwrap().pos.col, 7);
    game.soft_drop();
    assert_eq!(game.current_move().unwrap().pos.row, start.row + 1);
    game.rotate();
    assert_eq!(game.current_move().unwrap().pos.rot, 1);
    game.rotate();
    game.rotate();
    game.rotate();
    assert_eq!(game.current_move().unwrap().pos.rot, 0);
    assert_eq!(game.state().stats(), Stats::default());
}

#[test]
fn hard_drop_places_the_piece() {
    let mut game = Game::new();
    assert!(game.step_with(piece(0)));
    game.rotate();
    for _ in 0..10 {
        game.move_left();
    }
    assert!(game.hard_drop_with(piece(4)));
    assert!(game.current_move().is_none());
    assert_eq!(game.state().board().heights(), &[4, 0, 0, 0, 0, 0, 0, 0, 0, 0]);
    assert_eq!(
        game.state().delta().unwrap().mv.pos,
        Position { rot: 1, row: 16, col: -2 }
    );
    // without a piece on its way the next one spawns
    assert!(game.hard_drop_with(piece(4)));
    assert_eq!(game.current_move(), Some(piece(4).into_start_move()));
    game.hard_drop();
    assert!(game.current_move().is_none());
    assert_eq!(game.state().stats().steps, 2);
    game.reset();
    assert_eq!(game.state().stats(), Stats::default());
    assert_eq!(game.state().board().heights(), &[0; BOARD_WIDTH]);
}

#[test]
fn the_game_ends_when_nothing_spawns() {
    let mut game = Game::new();
    let mut placed = 0;
    loop {
        if !game.step_with(piece(4)) {
            break;
        }
        if game.current_move().is_some() {
            assert!(game.hard_drop_with(piece(4)));
            placed += 1;
        }
        assert!(placed <= 10);
    }
    assert_eq!(placed, 10);
    assert!(game.state().game_over());
    assert!(game.current_move().is_none());
    assert!(!game.step());
}
