use tetris_ai::board::{Board, BOARD_HEIGHT, BOARD_WIDTH};
use tetris_ai::moves::{Move, Path, Position};
use tetris_ai::piece::{Piece, N_PIECES};
use tetris_ai::search::{
    max_moves, max_tick_moves, move_dijkstra, next_positions, touches_ground, MAX_MOVES,
    MAX_MOVES_PER_TICK, MIN_MOVES,
};

fn piece(index: usize) -> Piece {
    Piece::from_index(index).unwrap()
}

fn walk_of(path: &Path) -> Vec<Position> {
    path.clone().into_moves().into_iter().flatten().collect()
}

fn check_path(board: &Board, p: Piece, level: Option<u64>, path: &Path) {
    let groups = path.clone().into_moves();
    assert_eq!(groups.len(), path.length());
    assert!(!groups.is_empty());
    let walk = walk_of(path);
    assert_eq!(walk[0], p.into_start_move().pos);
    assert_eq!(path.piece(), p);
    let last = *walk.last().unwrap();
    assert_eq!(path.final_move(), Move { piece: p, pos: last });
    assert!(board.overlaps_move(Move {
        piece: p,
        pos: Position { rot: last.rot, row: last.row + 1, col: last.col },
    }));
    for pos in &walk {
        assert!(!board.overlaps_move(Move { piece: p, pos: *pos }));
    }
    let n = p.num_rotations();
    for pair in walk.windows(2) {
        let (a, b) = (pair[0], pair[1]);
        let down = b.rot == a.rot && b.col == a.col && b.row == a.row + 1;
        let side = b.rot == a.rot && b.row == a.row && (b.col - a.col).abs() == 1;
        let turn = b.row == a.row
            && b.col == a.col
            && b.rot != a.rot
            && (b.rot == (a.rot + 1) % n || b.rot == (a.rot + n - 1) % n);
        assert!(down || side || turn);
    }
    let mut total = 0;
    for (g, group) in groups.iter().enumerate() {
        assert!(!group.is_empty());
        assert!(group.iter().all(|pos| pos.row == group[0].row));
        if g > 0 {
            assert_eq!(group[0].row, groups[g - 1][0].row + 1);
        }
        assert!(group.len() as u64 - 1 <= max_tick_moves(level));
        total += group.len() as u64 - 1;
    }
    assert!(total <= max_moves(level));
}

#[test]
fn input_limits_by_level() {
    assert_eq!((MIN_MOVES, MAX_MOVES, MAX_MOVES_PER_TICK), (5, 12, 3));
    assert_eq!(max_moves(None), 12);
    assert_eq!(max_tick_moves(None), 3);
    assert_eq!(max_moves(Some(0)), 12);
    assert_eq!(max_tick_moves(Some(0)), 3);
    assert_eq!(max_moves(Some(15)), 9);
    assert_eq!(max_tick_moves(Some(15)), 2);
    assert_eq!(max_moves(Some(30)), 5);
    assert_eq!(max_tick_moves(Some(30)), 1);
    assert_eq!(max_moves(Some(1000)), 5);
    assert_eq!(max_tick_moves(Some(u64::MAX)), 1);
    let expected: Vec<u64> = (0..=30u64)
        .map(|l| 5 + ((1.0 - l as f64 / 30.0) * 7.0).round() as u64)
        .collect();
    let found: Vec<u64> = (0..=30u64).map(|l| max_moves(Some(l))).collect();
    assert_eq!(found, expected);
    let expected: Vec<u64> = (0..=30u64)
        .map(|l| 1 + ((1.0 - l as f64 / 30.0) * 2.0).round() as u64)
        .collect();
    let found: Vec<u64> = (0..=30u64).map(|l| max_tick_moves(Some(l))).collect();
    assert_eq!(found, expected);
}

#[test]
fn successors_of_a_position() {
    let zero = Position::default();
    let mut candidates = [zero; 5];
    let pos = Position { rot: 0, row: 3, col: 4 };
    assert_eq!(next_positions(&mut candidates, pos, piece(1)), 5);
    assert_eq!(
        candidates,
        [
            Position { rot: 0, row: 3, col: 3 },
            Position { rot: 0, row: 3, col: 5 },
            Position { rot: 0, row: 4, col: 4 },
            Position { rot: 1, row: 3, col: 4 },
            Position { rot: 3, row: 3, col: 4 },
        ]
    );
    assert_eq!(next_positions(&mut candidates, Position { rot: 1, row: 3, col: 4 }, piece(0)), 4);
    assert_eq!(candidates[3], Position { rot: 0, row: 3, col: 4 });
    assert_eq!(next_positions(&mut candidates, pos, piece(4)), 3);
}

#[test]
fn empty_drop_of_the_i_piece() {
    let board = Board::default();
    let p = piece(0);
    let paths = move_dijkstra(&board, p, Some(0));
    assert!(paths.len() >= 17);
    for path in &paths {
        check_path(&board, p, Some(0), path);
        let m = path.final_move();
        assert!(m.pattern().rows() as isize + m.pos.row <= BOARD_HEIGHT as isize + 1);
    }
    let mut finals: Vec<Position> = paths.iter().map(|path| path.final_move().pos).collect();
    finals.sort();
    finals.dedup();
    assert_eq!(finals.len(), paths.len());
    // the flat I lies in row 2 of its matrix, the upright one fills four rows
    let flat: Vec<isize> = finals.iter().filter(|p| p.rot == 0).map(|p| p.col).collect();
    assert_eq!(flat, vec![0, 1, 2, 3, 4, 5, 6]);
    assert!(finals.iter().filter(|p| p.rot == 0).all(|p| p.row == 17));
    let upright: Vec<isize> = finals.iter().filter(|p| p.rot == 1).map(|p| p.col).collect();
    assert_eq!(upright, vec![-2, -1, 0, 1, 2, 3, 4, 5, 6, 7]);
    assert!(finals.iter().filter(|p| p.rot == 1).all(|p| p.row == 16));
}

#[test]
fn every_path_is_a_way_to_a_landing() {
    let mut board = Board::default();
    for c in 0..BOARD_WIDTH {
        if c != 4 {
            board.fill_cell(19, c);
            board.fill_cell(18, c);
        }
    }
    board.fill_cell(12, 7);
    board.fill_cell(15, 1);
    for level in [None, Some(0), Some(9), Some(15), Some(29), Some(30), Some(99)] {
        for i in 0..N_PIECES {
            let p = piece(i);
            let paths = move_dijkstra(&board, p, level);
            assert!(!paths.is_empty());
            for path in &paths {
                check_path(&board, p, level, path);
            }
            let mut finals: Vec<Position> = paths.iter().map(|path| path.final_move().pos).collect();
            finals.sort();
            finals.dedup();
            assert_eq!(finals.len(), paths.len());
        }
    }
}

#[test]
fn fewer_landings_at_higher_speed() {
    let board = Board::default();
    for i in 0..N_PIECES {
        let slow = move_dijkstra(&board, piece(i), Some(0)).len();
        let fast = move_dijkstra(&board, piece(i), Some(30)).len();
        assert!(fast <= slow);
        assert!(fast >= 1);
    }
    // at the top speed five inputs are left, one for each tick
    let paths = move_dijkstra(&board, piece(4), Some(30));
    let mut cols: Vec<isize> = paths.iter().map(|p| p.final_move().pos.col).collect();
    cols.sort();
    assert_eq!(cols, vec![0, 1, 2, 3, 4, 5, 6, 7, 8]);
    let paths = move_dijkstra(&board, piece(4), None);
    assert_eq!(paths.len(), 9);
}

#[test]
fn no_path_where_the_spawn_is_blocked() {
    let mut board = Board::default();
    for r in 0..BOARD_HEIGHT {
        for c in 3..7 {
            board.fill_cell(r, c);
        }
    }
    for i in 0..N_PIECES {
        assert!(board.overlaps_move(piece(i).into_start_move()));
        assert!(move_dijkstra(&board, piece(i), Some(0)).is_empty());
    }
}

#[test]
fn touching_the_ground() {
    let mut board = Board::default();
    let p = piece(4);
    assert!(touches_ground(p, Position { rot: 0, row: 18, col: 0 }, &board));
    assert!(!touches_ground(p, Position { rot: 0, row: 17, col: 0 }, &board));
    board.fill_cell(19, 1);
    assert!(touches_ground(p, Position { rot: 0, row: 17, col: 0 }, &board));
    assert!(!touches_ground(p, Position { rot: 0, row: 17, col: 2 }, &board));
}

#[test]
fn the_straight_drop_is_always_found() {
    let mut board = Board::default();
    board.fill_cell(9, 4);
    board.fill_cell(15, 5);
    for level in [None, Some(0), Some(30)] {
        for i in 0..N_PIECES {
            let p = piece(i);
            let mut m = p.into_start_move();
            while let Some(lower) = m.drop(&board) {
                m = lower;
            }
            let paths = move_dijkstra(&board, p, level);
            assert!(paths.iter().any(|path| path.final_move() == m));
        }
    }
}

#[test]
fn the_i_piece_at_the_top_speed() {
    // five inputs in all, one for each tick: the upright I in the leftmost
    // column would take a turn and five moves to the left
    let board = Board::default();
    let paths = move_dijkstra(&board, piece(0), Some(30));
    let mut finals: Vec<(usize, isize, isize)> =
        paths.iter().map(|p| p.final_move().pos).map(|p| (p.rot, p.row, p.col)).collect();
    finals.sort();
    let mut expected: Vec<(usize, isize, isize)> = (0..=6).map(|c| (0, 17, c)).collect();
    expected.extend((-1..=7).map(|c| (1, 16, c)));
    assert_eq!(finals, expected);
    assert_eq!(paths.len(), 16);
    assert_eq!(move_dijkstra(&board, piece(0), Some(0)).len(), 17);
    assert_eq!(move_dijkstra(&board, piece(0), None).len(), 17);
}

fn reachable_landings(board: &Board, p: Piece, level: Option<u64>) -> Vec<Position> {
    let (mm, mt) = (max_moves(level), max_tick_moves(level));
    let fits = |pos: Position| !board.overlaps_move(Move { piece: p, pos });
    let mut seen = std::collections::HashSet::new();
    let mut open = Vec::new();
    let start = p.into_start_move().pos;
    if fits(start) {
        seen.insert((start, 0u64, 0u64));
        open.push((start, 0u64, 0u64));
    }
    let n = p.num_rotations();
    while let Some((pos, m, t)) = open.pop() {
        let mut next = vec![
            (Position { col: pos.col - 1, ..pos }, m + 1, t + 1),
            (Position { col: pos.col + 1, ..pos }, m + 1, t + 1),
            (Position { row: pos.row + 1, ..pos }, m, 0),
        ];
        if n > 1 {
            next.push((Position { rot: (pos.rot + 1) % n, ..pos }, m + 1, t + 1));
        }
        if n > 2 {
            next.push((Position { rot: (pos.rot + n - 1) % n, ..pos }, m + 1, t + 1));
        }
        for (q, m, t) in next {
            if m <= mm && t <= mt && fits(q) && seen.insert((q, m, t)) {
                open.push((q, m, t));
            }
        }
    }
    let mut landings: Vec<Position> = seen
        .iter()
        .map(|(pos, _, _)| *pos)
        .filter(|pos| !fits(Position { row: pos.row + 1, ..*pos }))
        .collect();
    landings.sort();
    landings.dedup();
    landings
}

#[test]
fn every_landing_within_the_limits_is_found() {
    let text = "
..........
..........
..........
..........
..........
..........
..........
..........
....##....
.....#....
.#........
.###...##.
........#.
...#......
..###....#
#.....##.#
#..#...#.#
##.##..#.#
##.##.##.#
##.##.####";
    let boards = [Board::default(), Board::from_str(text).unwrap()];
    for board in &boards {
        for level in [None, Some(0), Some(10), Some(20), Some(26), Some(30)] {
            for i in 0..N_PIECES {
                let p = piece(i);
                let mut finals: Vec<Position> = move_dijkstra(board, p, level)
                    .iter()
                    .map(|path| path.final_move().pos)
                    .collect();
                finals.sort();
                assert_eq!(finals, reachable_landings(board, p, level));
            }
        }
    }
}
