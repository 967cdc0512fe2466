use tetris_ai::board::{Board, BOARD_WIDTH};
use tetris_ai::error::Error;
use tetris_ai::piece::{get_piece_rotation, Piece, N_PIECES};

fn piece(index: usize) -> Piece {
    Piece::from_index(index).unwrap()
}

#[test]
fn catalog_has_seven_pieces() {
    assert_eq!(N_PIECES, 7);
    for i in 0..N_PIECES {
        assert_eq!(piece(i).index(), i);
        assert_eq!(piece(i).get_index(), i);
        assert_eq!(piece(i).cell().inner(), i as u8 + 1);
    }
    assert_eq!(Piece::from_index(7).err(), Some(Error::PieceOutOfRange));
    assert_eq!(Piece::from_index(usize::MAX).err(), Some(Error::PieceOutOfRange));
}

#[test]
fn names_rotations_and_sizes() {
    let names: Vec<char> = (0..N_PIECES).map(|i| piece(i).data().name).collect();
    assert_eq!(names, vec!['I', 'T', 'L', 'J', 'O', 'Z', 'S']);
    let rotations: Vec<usize> = (0..N_PIECES).map(|i| piece(i).num_rotations()).collect();
    assert_eq!(rotations, vec![2, 4, 4, 4, 1, 2, 2]);
    let sizes: Vec<usize> = (0..N_PIECES).map(|i| piece(i).rotation(0).rows()).collect();
    assert_eq!(sizes, vec![4, 3, 3, 3, 2, 3, 3]);
    for i in 0..N_PIECES {
        let p = piece(i).rotation(0);
        assert_eq!(p.rows(), p.cols());
    }
}

#[test]
fn every_rotation_has_four_cells() {
    for i in 0..N_PIECES {
        let p = piece(i);
        for rot in 0..p.num_rotations() {
            let pattern = p.rotation(rot);
            let mut cells = 0;
            for r in 0..pattern.rows() {
                cells += pattern.row_count(r);
                for c in 0..pattern.cols() {
                    assert_eq!(pattern.get_row(r).unwrap()[c], pattern.filled(r, c));
                }
            }
            assert_eq!(cells, 4);
            assert!(pattern.get_row(pattern.rows()).is_none());
            assert!(!pattern.filled(pattern.rows(), 0));
            assert!(!pattern.filled(0, pattern.cols()));
        }
    }
}

#[test]
fn patterns_keep_their_empty_borders() {
    let flat = piece(0).rotation(0);
    assert_eq!(flat.get_row(0).unwrap(), vec![false, false, false, false]);
    assert_eq!(flat.get_row(2).unwrap(), vec![true, true, true, true]);
    let upright = piece(0).rotation(1);
    for r in 0..4 {
        assert_eq!(upright.get_row(r).unwrap(), vec![false, false, true, false]);
    }
    let t = piece(1).rotation(0);
    assert_eq!(t.get_row(0).unwrap(), vec![false, false, false]);
    assert_eq!(t.get_row(1).unwrap(), vec![true, true, true]);
    assert_eq!(t.get_row(2).unwrap(), vec![false, true, false]);
    let s = piece(6).rotation(1);
    assert_eq!(s.get_row(0).unwrap(), vec![true, false, false]);
    assert_eq!(s.get_row(1).unwrap(), vec![true, true, false]);
    assert_eq!(s.get_row(2).unwrap(), vec![false, true, false]);
}

#[test]
fn spawn_offsets_and_start_moves() {
    let offsets: Vec<(isize, isize)> = (0..N_PIECES).map(|i| piece(i).spawn_offset()).collect();
    assert_eq!(offsets, vec![(2, 2), (1, 1), (1, 1), (1, 1), (0, 1), (1, 1), (1, 1)]);
    for i in 0..N_PIECES {
        let start = piece(i).into_start_move();
        let offset = piece(i).spawn_offset();
        assert_eq!(start.piece, piece(i));
        assert_eq!(start.pos.rot, 0);
        assert_eq!(start.pos.row, -offset.0);
        assert_eq!(start.pos.col, (BOARD_WIDTH / 2) as isize - offset.1);
    }
}

#[test]
fn every_piece_spawns_on_the_empty_board() {
    let board = Board::default();
    for i in 0..N_PIECES {
        let start = piece(i).into_start_move();
        assert!(start.is_valid(&board));
        assert!(!board.overlaps_move(start));
    }
}

#[test]
fn flat_patterns() {
    let flat = piece(4).rotation(0).into_wasm();
    assert_eq!(flat.size, 2);
    assert_eq!(flat.data, vec![1, 1, 1, 1]);
    let t = get_piece_rotation(1, 3).unwrap();
    assert_eq!(t.size, 3);
    assert_eq!(t.data, vec![0, 1, 0, 0, 1, 1, 0, 1, 0]);
    assert_eq!(get_piece_rotation(7, 0).err(), Some(Error::PieceOutOfRange));
    assert_eq!(get_piece_rotation(0, 2).err(), Some(Error::RotationOutOfRange));
    assert_eq!(get_piece_rotation(4, 1).err(), Some(Error::RotationOutOfRange));
}

#[test]
fn pieces_and_patterns_as_text() {
    let names: Vec<String> = (0..N_PIECES).map(|i| piece(i).to_text()).collect();
    assert_eq!(
        names,
        vec!["Piece I", "Piece T", "Piece L", "Piece J", "Piece O", "Piece Z", "Piece S"]
    );
    assert_eq!(piece(1).rotation(0).to_text(), "\n...\nxxx\n.x.\n");
    assert_eq!(piece(4).rotation(0).to_text(), "\nxx\nxx\n");
    assert_eq!(piece(0).rotation(1).to_text(), "\n..x.\n..x.\n..x.\n..x.\n");
    assert_eq!(tetris_ai::board::Cell::new(0).to_char(), '.');
    assert_eq!(tetris_ai::board::Cell::new(6).to_char(), '#');
}
