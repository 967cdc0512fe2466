use tetris_ai::board::{Board, Cell, BOARD_HEIGHT, BOARD_WIDTH};
use tetris_ai::error::Error;

fn fill_row(board: &mut Board, row: usize) {
    for c in 0..BOARD_WIDTH {
        board.fill_cell(row, c);
    }
}

#[test]
fn test_clear_board_single() {
    let mut board = Board::default();
    fill_row(&mut board, BOARD_HEIGHT - 1);
    assert_eq!(board.clear_full(), vec![BOARD_HEIGHT - 1]);
    assert_eq!(board.heights(), &[0; BOARD_WIDTH]);
}

#[test]
fn test_clear_board_single_2() {
    let mut board = Board::default();
    fill_row(&mut board, 8);
    assert_eq!(board.clear_full(), vec![8]);
}

#[test]
fn test_clear_board_single_3() {
    let mut board = Board::default();
    fill_row(&mut board, 0);
    assert_eq!(board.clear_full(), vec![0]);
}

#[test]
fn test_clear_board_multiple() {
    let ranges = vec![0..3, 4..9, 5..14, 16..BOARD_HEIGHT, 0..BOARD_HEIGHT];
    for (n, range) in ranges.into_iter().enumerate() {
        let mut board = Board::default();
        for r in range.clone() {
            fill_row(&mut board, r);
        }
        assert_eq!(board.clear_full(), range.rev().collect::<Vec<_>>());
        if n >= 3 {
            assert_eq!(board.heights(), &[0; BOARD_WIDTH]);
        }
    }
}

#[test]
fn test_clear_board_bottom_fill() {
    let mut board = Board::default();
    for i in 0..BOARD_HEIGHT - 1 {
        let range = i..BOARD_HEIGHT;
        for r in range.clone() {
            fill_row(&mut board, r);
        }
        assert_eq!(board.clear_full(), range.rev().collect::<Vec<_>>());
        for r in 0..BOARD_HEIGHT {
            for c in 0..BOARD_WIDTH {
                assert!(board.get(r, c).empty());
            }
        }
        assert_eq!(board.heights(), &[0; BOARD_WIDTH]);
    }
}

fn check_clear_board(input: &str, expected: &str, expected_rows: Vec<usize>) {
    let mut board = Board::from_str(input).unwrap();
    let cleared = board.clear_full();
    let expected_board = Board::from_str(expected).unwrap();
    println!("Expected board:{}", expected);
    println!("Actual board:{}", board.to_text());
    assert_eq!(cleared, expected_rows);
    assert_eq!(board.heights(), expected_board.heights());
    assert_eq!(board.get_data(), expected_board.get_data());
}

#[test]
fn test_clear_board_regression() {
    check_clear_board(
        r#"
##########
#########.
#.#..###..
..#..###..
.##...#...
.##...#...
..###.#...
..##..#...
..##..#...
#.##.##...
#.##.##...
###..#.#..
###.##.#..
########..
..######..
.#.#.####.
.#.#...###
##.#..####
##.#...###
##.#....##
    "#,
        r#"
..........
#########.
#.#..###..
..#..###..
.##...#...
.##...#...
..###.#...
..##..#...
..##..#...
#.##.##...
#.##.##...
###..#.#..
###.##.#..
########..
..######..
.#.#.####.
.#.#...###
##.#..####
##.#...###
##.#....##
            "#,
        vec![0],
    );
}

#[test]
fn test_clear_board_regression_2() {
    check_clear_board(
        r#"
..........
..........
..........
..........
...#......
..##......
######.##.
#########.
#########.
#########.
#########.
##########
.#########
##########
##########
.####.####
.#########
######.###
######.###
######.###"#,
        r#"
..........
..........
..........
..........
..........
..........
..........
...#......
..##......
######.##.
#########.
#########.
#########.
#########.
.#########
.####.####
.#########
######.###
######.###
######.###"#,
        vec![14, 13, 11],
    );
}

#[test]
fn clear_on_empty_board_returns_nothing() {
    let mut board = Board::default();
    assert_eq!(board.clear_full(), Vec::<usize>::new());
    assert_eq!(board.heights(), &[0; BOARD_WIDTH]);
}

#[test]
fn clear_on_filled_board_returns_all_rows() {
    let mut board = Board::from_data([[Cell::new(3); BOARD_WIDTH]; BOARD_HEIGHT]);
    assert_eq!(board.heights(), &[BOARD_HEIGHT; BOARD_WIDTH]);
    let rows = board.clear_full();
    assert_eq!(rows, (0..BOARD_HEIGHT).rev().collect::<Vec<_>>());
    assert_eq!(board.heights(), &[0; BOARD_WIDTH]);
}

#[test]
fn clear_twice_changes_nothing_more() {
    let mut board = Board::default();
    fill_row(&mut board, 19);
    fill_row(&mut board, 17);
    board.fill_cell(18, 4);
    board.fill_cell(10, 4);
    assert_eq!(board.clear_full(), vec![19, 17]);
    let once = board;
    assert_eq!(board.clear_full(), Vec::<usize>::new());
    assert_eq!(board.get_data(), once.get_data());
    assert_eq!(board.heights(), once.heights());
    assert_eq!(board.height(4), 8);
    assert!(board.get(19, 4).filled());
    assert!(board.get(12, 4).filled());
}

#[test]
fn heights_follow_the_topmost_cell() {
    let mut board = Board::default();
    board.fill_cell(15, 2);
    board.fill_cell(12, 2);
    assert_eq!(board.height(2), 8);
    board.clear_cell(12, 2);
    assert_eq!(board.height(2), 5);
    board.clear_cell(15, 2);
    assert_eq!(board.height(2), 0);
}

#[test]
fn cells_report_their_value() {
    assert!(Cell::new(0).empty());
    assert!(!Cell::new(0).filled());
    assert!(Cell::new(5).filled());
    assert!(Cell::new(5).occupied());
    assert_eq!(Cell::new(5).inner(), 5);
    assert_eq!(Cell::default().inner(), 0);
    let mut cell = Cell::new(2);
    cell.add(Cell::new(0));
    assert_eq!(cell.inner(), 2);
    cell.add(Cell::new(7));
    assert_eq!(cell.inner(), 7);
}

#[test]
fn board_text_round_trip() {
    let mut board = Board::default();
    board.fill_cell(19, 0);
    board.fill_cell(0, 9);
    let text = board.to_text();
    assert_eq!(text.len(), 221);
    assert!(text.starts_with("\n.........#\n"));
    assert!(text.ends_with("\n#.........\n"));
    let back = Board::from_str(&text).unwrap();
    assert_eq!(back.get_data(), board.get_data());
    assert_eq!(back.heights(), board.heights());
}

#[test]
fn malformed_board_text_is_refused() {
    assert_eq!(Board::from_str("").err(), Some(Error::InvalidBoardText));
    let good = Board::default().to_text();
    assert!(Board::from_str(&good).is_ok());
    let wrong_char = good.replacen('.', "x", 1);
    assert_eq!(Board::from_str(&wrong_char).err(), Some(Error::InvalidBoardText));
    let short_row = good.replacen("..........\n", ".........\n", 1);
    assert_eq!(Board::from_str(&short_row).err(), Some(Error::InvalidBoardText));
    let extra = format!("{}#", good);
    assert_eq!(Board::from_str(&extra).err(), Some(Error::InvalidBoardText));
}
