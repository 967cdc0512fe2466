use rand::Rng;
use tetris_ai::board::{Board, Cell, BOARD_HEIGHT, BOARD_WIDTH};
use tetris_ai::moves::{move_drop, Move, Position};
use tetris_ai::piece::{Piece, N_PIECES};

fn piece(index: usize) -> Piece {
    Piece::from_index(index).unwrap()
}

fn at(index: usize, rot: usize, row: isize, col: isize) -> Move {
    Move { piece: piece(index), pos: Position { rot, row, col } }
}

fn random_board() -> Board {
    let mut board = Board::default();
    let mut rng = rand::rng();
    let iterations = rng.random_range(0..=BOARD_HEIGHT * BOARD_WIDTH);
    for _ in 0..iterations {
        let col = rng.random_range(0..BOARD_WIDTH);
        let col_height = board.height(col);
        if col_height == BOARD_HEIGHT {
            continue;
        }
        let row = BOARD_HEIGHT - col_height - 1;
        board.fill_cell(row, col);
    }
    for r in 0..BOARD_HEIGHT {
        for c in 0..BOARD_WIDTH {
            if board.get(r, c).filled() && rng.random_bool(0.05) {
                board.clear_cell(r, c);
            }
        }
    }
    board.clear_full();
    board
}

#[test]
fn overlap_with_floor_sides_and_cells() {
    let mut board = Board::default();
    // upright I: its cells lie in column col + 2
    assert!(!board.overlaps_move(at(0, 1, 16, 7)));
    assert!(board.overlaps_move(at(0, 1, 17, 7)));
    assert!(board.overlaps_move(at(0, 1, 0, 8)));
    assert!(!board.overlaps_move(at(0, 1, 0, -2)));
    assert!(board.overlaps_move(at(0, 1, 0, -3)));
    // above the top row nothing is in the way
    assert!(!board.overlaps_move(at(0, 1, -4, 0)));
    assert!(!board.overlaps_move(at(0, 1, -100, 0)));
    assert!(board.overlaps_move(at(0, 1, -100, 8)));
    board.fill_cell(10, 2);
    assert!(board.overlaps_move(at(0, 1, 7, 0)));
    assert!(board.overlaps_move(at(0, 1, 10, 0)));
    assert!(!board.overlaps_move(at(0, 1, 6, 0)));
    assert!(!board.overlaps_move(at(0, 1, 11, 0)));
    assert!(!at(0, 1, 7, 0).is_valid(&board));
    assert!(at(0, 1, 6, 0).is_valid(&board));
}

#[test]
fn drop_goes_one_row_down_or_stops() {
    let board = Board::default();
    let m = at(1, 0, 5, 3);
    let lower = m.drop(&board).unwrap();
    assert_eq!(lower, at(1, 0, 6, 3));
    // T unrotated has its lowest cell in row 2 of the matrix
    assert!(at(1, 0, 17, 3).drop(&board).is_none());
    assert!(at(1, 0, 16, 3).drop(&board).is_some());
    assert!(at(1, 0, isize::MAX, 3).drop(&board).is_none());
}

#[test]
fn imprint_writes_cells_and_heights() {
    let mut board = Board::default();
    let m = at(1, 0, 17, 3);
    board.imprint(m.pattern(), m.pos.row, m.pos.col, m.piece.cell());
    assert_eq!(board.get(18, 3), Cell::new(2));
    assert_eq!(board.get(18, 4), Cell::new(2));
    assert_eq!(board.get(18, 5), Cell::new(2));
    assert_eq!(board.get(19, 4), Cell::new(2));
    assert!(board.get(19, 3).empty());
    assert!(board.get(17, 4).empty());
    assert_eq!(board.heights(), &[0, 0, 0, 2, 2, 2, 0, 0, 0, 0]);
    let mut count = 0;
    for r in 0..BOARD_HEIGHT {
        for c in 0..BOARD_WIDTH {
            if board.get(r, c).filled() {
                count += 1;
            }
        }
    }
    assert_eq!(count, 4);
}

#[test]
fn imprint_leaves_out_cells_beside_the_board() {
    let mut board = Board::default();
    let m = at(0, 0, -2, -2);
    board.imprint(m.pattern(), m.pos.row, m.pos.col, m.piece.cell());
    assert_eq!(board.get(0, 0), Cell::new(1));
    assert_eq!(board.get(0, 1), Cell::new(1));
    assert!(board.get(0, 2).empty());
    assert_eq!(board.heights(), &[20, 20, 0, 0, 0, 0, 0, 0, 0, 0]);
    let mut other = Board::default();
    other.imprint(m.pattern(), -10, 0, m.piece.cell());
    assert_eq!(other.get_data(), Board::default().get_data());
    assert_eq!(other.heights(), &[0; BOARD_WIDTH]);
}

#[test]
fn drops_on_the_empty_board() {
    let board = Board::default();
    let drops = move_drop(&board, piece(4));
    let expected: Vec<Position> = (0..9).map(|col| Position { rot: 0, row: 18, col }).collect();
    assert_eq!(drops, expected);
    // the flat I has an empty row below its cells, so its matrix rests on the floor
    let drops = move_drop(&board, piece(0));
    assert_eq!(drops.len(), 14);
    assert_eq!(drops[0], Position { rot: 0, row: 16, col: 0 });
    assert_eq!(drops[7], Position { rot: 1, row: 16, col: 0 });
}

fn naive_overlaps(board: &Board, piece: Piece, rot: usize, row: usize, col: usize) -> bool {
    let pattern = piece.rotation(rot);
    if row + pattern.rows() > BOARD_HEIGHT || col + pattern.cols() > BOARD_WIDTH {
        return true;
    }
    for r in 0..pattern.rows() {
        for c in 0..pattern.cols() {
            if pattern.filled(r, c) && board.get(row + r, col + c).filled() {
                return true;
            }
        }
    }
    false
}

fn naive_drops(board: &Board, piece: Piece) -> Vec<Position> {
    let mut moves = Vec::new();
    for rot in 0..piece.num_rotations() {
        let size = piece.rotation(rot).cols();
        for col in 0..=(BOARD_WIDTH - size) {
            let highest = (0..size).map(|c| board.height(col + c)).max().unwrap();
            let mut row = (BOARD_HEIGHT - highest).saturating_sub(size);
            if !naive_overlaps(board, piece, rot, row, col) {
                while !naive_overlaps(board, piece, rot, row + 1, col) {
                    row += 1;
                }
                moves.push(Position { rot, row: row as isize, col: col as isize });
            }
        }
    }
    moves
}

#[test]
fn test_move_drop() {
    for _ in 0..100 {
        let board = random_board();
        for piece_index in 0..N_PIECES {
            let p = piece(piece_index);
            let expected = naive_drops(&board, p);
            let found = move_drop(&board, p);
            assert_eq!(found, expected, "board {}", board.to_text());
            for pos in found {
                let pattern = p.rotation(pos.rot);
                assert!(!board.overlaps(&pattern, pos.row as usize, pos.col as usize));
                assert!(board.overlaps(&pattern, pos.row as usize + 1, pos.col as usize));
            }
        }
    }
}
