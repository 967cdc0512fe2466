use crate::board::{Cell, BOARD_WIDTH};
use crate::error::Error;
use crate::moves::{Move, Position};
use vstd::prelude::*;
use vstd::string::StringExecFns;

verus! {

/// Number of pieces in the catalog.
pub const N_PIECES: usize = 7;

/// The two rotations of the I piece.
pub const SHAPES_I: [[[bool; 4]; 4]; 2] = [
    [
        [false, false, false, false],
        [false, false, false, false],
        [true, true, true, true],
        [false, false, false, false],
    ],
    [
        [false, false, true, false],
        [false, false, true, false],
        [false, false, true, false],
        [false, false, true, false],
    ],
];

/// The four rotations of the T piece.
pub const SHAPES_T: [[[bool; 3]; 3]; 4] = [
    [[false, false, false], [true, true, true], [false, true, false]],
    [[false, true, false], [true, true, false], [false, true, false]],
    [[false, true, false], [true, true, true], [false, false, false]],
    [[false, true, false], [false, true, true], [false, true, false]],
];

/// The four rotations of the L piece.
pub const SHAPES_L: [[[bool; 3]; 3]; 4] = [
    [[false, false, false], [true, true, true], [true, false, false]],
    [[true, true, false], [false, true, false], [false, true, false]],
    [[false, false, true], [true, true, true], [false, false, false]],
    [[false, true, false], [false, true, false], [false, true, true]],
];

/// The four rotations of the J piece.
pub const SHAPES_J: [[[bool; 3]; 3]; 4] = [
    [[false, false, false], [true, true, true], [false, false, true]],
    [[false, true, false], [false, true, false], [true, true, false]],
    [[true, false, false], [true, true, true], [false, false, false]],
    [[false, true, true], [false, true, false], [false, true, false]],
];

/// The one rotation of the O piece.
pub const SHAPES_O: [[[bool; 2]; 2]; 1] = [[[true, true], [true, true]]];

/// The two rotations of the Z piece.
pub const SHAPES_Z: [[[bool; 3]; 3]; 2] = [
    [[false, false, false], [true, true, false], [false, true, true]],
    [[false, true, false], [true, true, false], [true, false, false]],
];

/// The two rotations of the S piece.
pub const SHAPES_S: [[[bool; 3]; 3]; 2] = [
    [[false, false, false], [false, true, true], [true, true, false]],
    [[true, false, false], [true, true, false], [false, true, false]],
];

/// Number of rotations of the piece with the given index.
pub open spec fn rotation_count(piece: int) -> int {
    if piece == 0 {
        2
    } else if 1 <= piece <= 3 {
        4
    } else if piece == 4 {
        1
    } else if 5 <= piece <= 6 {
        2
    } else {
        0
    }
}

/// Side of the square matrices that hold the piece's rotations.
pub open spec fn pattern_size(piece: int) -> int {
    if piece == 0 {
        4
    } else if piece == 4 {
        2
    } else if 1 <= piece <= 6 {
        3
    } else {
        0
    }
}

/// Whether the matrix of rotation `rot` of piece `piece` is filled at row
/// `r`, column `c`. Outside the matrix nothing is filled.
pub open spec fn shape(piece: int, rot: int, r: int, c: int) -> bool {
    &&& 0 <= rot < rotation_count(piece)
    &&& 0 <= r < pattern_size(piece)
    &&& 0 <= c < pattern_size(piece)
    &&& if piece == 0 {
        SHAPES_I[rot][r][c]
    } else if piece == 1 {
        SHAPES_T[rot][r][c]
    } else if piece == 2 {
        SHAPES_L[rot][r][c]
    } else if piece == 3 {
        SHAPES_J[rot][r][c]
    } else if piece == 4 {
        SHAPES_O[rot][r][c]
    } else if piece == 5 {
        SHAPES_Z[rot][r][c]
    } else {
        SHAPES_S[rot][r][c]
    }
}

/// Rows and columns by which the piece's matrix is moved up and left of
/// the spawn anchor.
pub open spec fn spawn_offset_of(piece: int) -> (int, int) {
    if piece == 0 {
        (2, 2)
    } else if piece == 4 {
        (0, 1)
    } else {
        (1, 1)
    }
}

/// Number of filled cells among the first `n` columns of row `r` of a
/// rotation.
pub open spec fn row_cells(piece: int, rot: int, r: int, n: int) -> int
    decreases n,
{
    if n <= 0 {
        0
    } else {
        row_cells(piece, rot, r, n - 1) + if shape(piece, rot, r, n - 1) { 1int } else { 0int }
    }
}

/// The name of the piece with the given index.
pub open spec fn name_of(piece: int) -> char {
    if piece == 0 {
        'I'
    } else if piece == 1 {
        'T'
    } else if piece == 2 {
        'L'
    } else if piece == 3 {
        'J'
    } else if piece == 4 {
        'O'
    } else if piece == 5 {
        'Z'
    } else {
        'S'
    }
}

/// The first `n` cells of row `r` of a rotation as text: `x` for a filled
/// cell, `.` for an empty one.
pub open spec fn row_text(piece: int, rot: int, r: int, n: int) -> Seq<char>
    decreases n,
{
    if n <= 0 {
        Seq::empty()
    } else {
        row_text(piece, rot, r, n - 1).push(
            if shape(piece, rot, r, n - 1) {
                'x'
            } else {
                '.'
            },
        )
    }
}

/// The first `n` rows of a rotation as text, after a line feed; each row
/// ends with a line feed.
pub open spec fn rows_text(piece: int, rot: int, n: int) -> Seq<char>
    decreases n,
{
    if n <= 0 {
        seq!['\n']
    } else {
        rows_text(piece, rot, n - 1) + row_text(piece, rot, n - 1, pattern_size(piece)).push('\n')
    }
}

/// Every rotation in the catalog has a filled cell.
pub proof fn lemma_shape_not_empty(piece: int, rot: int)
    requires
        0 <= piece < N_PIECES,
        0 <= rot < rotation_count(piece),
    ensures
        exists|r: int, c: int| shape(piece, rot, r, c),
{
    if piece == 0 {
        if rot == 0 {
            assert(shape(piece, rot, 2, 0));
        } else {
            assert(shape(piece, rot, 0, 2));
        }
    } else if piece == 4 {
        assert(shape(piece, rot, 0, 0));
    } else {
        assert(shape(piece, rot, 1, 1));
    }
}

/// A row of a rotation holds at most as many filled cells as it has
/// columns.
pub proof fn lemma_row_cells_bounds(piece: int, rot: int, r: int, n: int)
    requires
        0 <= n,
    ensures
        0 <= row_cells(piece, rot, r, n) <= n,
    decreases n,
{
    if n > 0 {
        lemma_row_cells_bounds(piece, rot, r, n - 1);
    }
}

/// One of the seven tetrominoes: I, T, L, J, O, Z, S, in this order.
#[derive(Clone, Copy, Debug, PartialEq, Eq)]
pub struct Piece(usize);

/// What the catalog holds for one piece, besides its matrices.
#[derive(Clone, Copy, Debug)]
pub struct PieceData {
    pub name: char,
    pub rotations: usize,
    pub size: usize,
    pub spawn_offset: (isize, isize),
}

impl View for Piece {
    type V = int;

    closed spec fn view(&self) -> int {
        self.0 as int
    }
}

impl Piece {
    #[verifier::type_invariant]
    spec fn in_catalog(self) -> bool {
        self.0 < N_PIECES
    }

    /// The piece with the given index; an index that the catalog does
    /// not hold is refused.
    pub fn from_index(index: usize) -> (piece: Result<Piece, Error>)
        ensures
            piece is Ok <==> index < N_PIECES,
            piece matches Ok(p) ==> p@ == index,
            piece matches Err(e) ==> e == Error::PieceOutOfRange,
    {
        if index < N_PIECES {
            Ok(Piece(index))
        } else {
            Err(Error::PieceOutOfRange)
        }
    }

    /// The piece with the given index of the catalog.
    pub(crate) fn at(index: usize) -> (piece: Piece)
        requires
            index < N_PIECES,
        ensures
            piece@ == index,
    {
        Piece(index)
    }

    /// The index of the piece in the catalog.
    pub fn index(&self) -> (index: usize)
        ensures
            index == self@,
            index < N_PIECES,
    {
        proof {
            use_type_invariant(self);
        }
        self.0
    }

    /// The index of the piece in the catalog.
    pub fn get_index(&self) -> (index: usize)
        ensures
            index == self@,
            index < N_PIECES,
    {
        self.index()
    }

    /// What the catalog holds for the piece.
    pub fn data(&self) -> (data: PieceData)
        ensures
            0 <= self@ < N_PIECES,
            data.rotations == rotation_count(self@),
            data.size == pattern_size(self@),
            data.spawn_offset.0 == spawn_offset_of(self@).0,
            data.spawn_offset.1 == spawn_offset_of(self@).1,
            data.name == name_of(self@),
    {
        let index = self.index();
        if index == 0 {
            PieceData { name: 'I', rotations: 2, size: 4, spawn_offset: (2, 2) }
        } else if index == 1 {
            PieceData { name: 'T', rotations: 4, size: 3, spawn_offset: (1, 1) }
        } else if index == 2 {
            PieceData { name: 'L', rotations: 4, size: 3, spawn_offset: (1, 1) }
        } else if index == 3 {
            PieceData { name: 'J', rotations: 4, size: 3, spawn_offset: (1, 1) }
        } else if index == 4 {
            PieceData { name: 'O', rotations: 1, size: 2, spawn_offset: (0, 1) }
        } else if index == 5 {
            PieceData { name: 'Z', rotations: 2, size: 3, spawn_offset: (1, 1) }
        } else {
            PieceData { name: 'S', rotations: 2, size: 3, spawn_offset: (1, 1) }
        }
    }

    /// The piece as text: the word `Piece` and its name.
    pub fn to_text(&self) -> (text: String)
        ensures
            text@ == "Piece "@.push(name_of(self@)),
    {
        let index = self.index();
        let mut text = String::from_str("Piece ");
        proof {
            reveal_strlit("I");
            reveal_strlit("T");
            reveal_strlit("L");
            reveal_strlit("J");
            reveal_strlit("O");
            reveal_strlit("Z");
            reveal_strlit("S");
        }
        let name = if index == 0 {
            "I"
        } else if index == 1 {
            "T"
        } else if index == 2 {
            "L"
        } else if index == 3 {
            "J"
        } else if index == 4 {
            "O"
        } else if index == 5 {
            "Z"
        } else {
            "S"
        };
        assert(name@ =~= seq![name_of(self@)]);
        text.append(name);
        assert(text@ =~= "Piece "@.push(name_of(self@)));
        text
    }

    /// Number of rotations of the piece.
    pub fn num_rotations(&self) -> (n: usize)
        ensures
            n == rotation_count(self@),
            1 <= n <= 4,
    {
        self.data().rotations
    }

    /// The matrix of rotation `rot` of the piece.
    pub closed spec fn rotation_spec(&self, rot: int) -> Pattern {
        Pattern { piece: *self, rot: rot as usize }
    }

    /// The cell value that marks this piece on a board.
    pub closed spec fn cell_spec(&self) -> Cell {
        Cell::spec_new((self.0 + 1) as u8)
    }

    /// The matrix of one rotation of the piece.
    pub fn rotation(&self, rotation: usize) -> (pattern: Pattern)
        requires
            rotation < rotation_count(self@),
        ensures
            pattern == self.rotation_spec(rotation as int),
            pattern.piece() == self@,
            pattern.rot() == rotation,
    {
        Pattern { piece: *self, rot: rotation }
    }

    /// The cell value that marks this piece on a board: its index plus one.
    pub fn cell(&self) -> (cell: Cell)
        ensures
            cell == self.cell_spec(),
            cell@ == self@ + 1,
            cell.is_filled(),
    {
        let index = self.index();
        Cell::new(index as u8 + 1)
    }

    /// Rows and columns by which the piece's matrix is moved up and left
    /// of the spawn anchor.
    pub fn spawn_offset(&self) -> (offset: (isize, isize))
        ensures
            offset.0 == spawn_offset_of(self@).0,
            offset.1 == spawn_offset_of(self@).1,
    {
        self.data().spawn_offset
    }

    /// The move that places the piece where it spawns: unrotated, above
    /// the middle of the top row.
    pub fn into_start_move(self) -> (start: Move)
        ensures
            start.piece == self,
            start.pos == spawn_position(self@),
            start.wf(),
    {
        proof {
            use_type_invariant(&self);
        }
        let offset = self.spawn_offset();
        Move { piece: self, pos: Position { rot: 0, row: 0 - offset.0, col: 5 - offset.1 } }
    }
}

/// Where the piece with the given index spawns.
pub open spec fn spawn_position(piece: int) -> Position {
    Position {
        rot: 0,
        row: (0 - spawn_offset_of(piece).0) as isize,
        col: (BOARD_WIDTH / 2 - spawn_offset_of(piece).1) as isize,
    }
}

/// One rotation of a piece: a square matrix of the catalog. Its empty
/// border rows and columns belong to it.
#[derive(Clone, Copy, Debug, PartialEq, Eq)]
pub struct Pattern {
    piece: Piece,
    rot: usize,
}

/// A pattern as a flat list of bytes, row after row, with its side.
#[derive(Clone, Debug)]
pub struct WasmPattern {
    pub data: Vec<u8>,
    pub size: usize,
}

impl Pattern {
    /// Index of the piece that the pattern belongs to.
    pub closed spec fn piece(&self) -> int {
        self.piece@
    }

    /// Index of the rotation that the pattern shows.
    pub closed spec fn rot(&self) -> int {
        self.rot as int
    }

    /// Number of rows, and of columns, of the matrix.
    pub open spec fn size(&self) -> int {
        pattern_size(self.piece())
    }

    /// Whether the matrix is filled at row `r`, column `c`.
    pub open spec fn at(&self, r: int, c: int) -> bool {
        shape(self.piece(), self.rot(), r, c)
    }

    /// Number of rows of the matrix.
    pub fn rows(&self) -> (n: usize)
        ensures
            n == self.size(),
            n <= 4,
    {
        self.piece.data().size
    }

    /// Number of columns of the matrix.
    pub fn cols(&self) -> (n: usize)
        ensures
            n == self.size(),
            n <= 4,
    {
        self.piece.data().size
    }

    /// Whether the matrix is filled at the given row and column; outside
    /// the matrix nothing is.
    pub fn filled(&self, row: usize, col: usize) -> (b: bool)
        ensures
            b == self.at(row as int, col as int),
    {
        let data = self.piece.data();
        if self.rot >= data.rotations || row >= data.size || col >= data.size {
            return false;
        }
        let index = self.piece.index();
        if index == 0 {
            SHAPES_I[self.rot][row][col]
        } else if index == 1 {
            SHAPES_T[self.rot][row][col]
        } else if index == 2 {
            SHAPES_L[self.rot][row][col]
        } else if index == 3 {
            SHAPES_J[self.rot][row][col]
        } else if index == 4 {
            SHAPES_O[self.rot][row][col]
        } else if index == 5 {
            SHAPES_Z[self.rot][row][col]
        } else {
            SHAPES_S[self.rot][row][col]
        }
    }

    /// One row of the matrix, left to right, if the matrix has that row.
    pub fn get_row(&self, row: usize) -> (cells: Option<Vec<bool>>)
        ensures
            cells is Some <==> row < self.size(),
            cells matches Some(v) ==> v.len() == self.size() && forall|c: int|
                0 <= c < v.len() ==> v[c] == self.at(row as int, c),
    {
        let size = self.rows();
        if row >= size {
            return None;
        }
        let mut cells: Vec<bool> = Vec::new();
        let mut c: usize = 0;
        while c < size
            invariant
                c <= size,
                size == self.size(),
                cells.len() == c,
                forall|j: int| 0 <= j < c ==> cells[j] == self.at(row as int, j),
            decreases size - c,
        {
            cells.push(self.filled(row, c));
            c += 1;
        }
        Some(cells)
    }

    /// Number of filled cells in one row of the matrix.
    pub fn row_count(&self, row: usize) -> (n: usize)
        ensures
            n == row_cells(self.piece(), self.rot(), row as int, self.size()),
            n <= 4,
    {
        let size = self.rows();
        let mut n: usize = 0;
        let mut c: usize = 0;
        while c < size
            invariant
                c <= size <= 4,
                n <= c,
                n == row_cells(self.piece(), self.rot(), row as int, c as int),
            decreases size - c,
        {
            if self.filled(row, c) {
                n += 1;
            }
            c += 1;
        }
        n
    }

    /// The matrix as text: a line feed, then row after row, each followed
    /// by a line feed; `x` stands for a filled cell, `.` for an empty one.
    pub fn to_text(&self) -> (text: String)
        ensures
            text@ == rows_text(self.piece(), self.rot(), self.size()),
    {
        let size = self.rows();
        let mut text = String::from_str("\n");
        proof {
            reveal_strlit("\n");
            reveal_strlit("x");
            reveal_strlit(".");
            assert(text@ =~= seq!['\n']);
        }
        let mut r: usize = 0;
        while r < size
            invariant
                r <= size,
                size == self.size(),
                "\n"@ == seq!['\n'],
                "x"@ == seq!['x'],
                "."@ == seq!['.'],
                text@ == rows_text(self.piece(), self.rot(), r as int),
            decreases size - r,
        {
            let ghost before = text@;
            let mut c: usize = 0;
            while c < size
                invariant
                    c <= size,
                    size == self.size(),
                    "\n"@ == seq!['\n'],
                    "x"@ == seq!['x'],
                    "."@ == seq!['.'],
                    text@ == before + row_text(self.piece(), self.rot(), r as int, c as int),
                decreases size - c,
            {
                let ghost line = row_text(self.piece(), self.rot(), r as int, c as int);
                if self.filled(r, c) {
                    text.append("x");
                    assert(text@ =~= before + line.push('x'));
                } else {
                    text.append(".");
                    assert(text@ =~= before + line.push('.'));
                }
                c += 1;
            }
            text.append("\n");
            assert(text@ =~= before + row_text(self.piece(), self.rot(), r as int, size as int).push(
                '\n',
            ));
            r += 1;
        }
        text
    }

    /// The matrix as bytes, row after row: 1 for a filled cell, 0 for an
    /// empty one.
    pub fn into_wasm(self) -> (flat: WasmPattern)
        ensures
            flat.size == self.size(),
            flat.data.len() == self.size() * self.size(),
            forall|r: int, c: int|
                0 <= r < self.size() && 0 <= c < self.size() ==> flat.data[r * self.size() + c]
                    == (if self.at(r, c) { 1u8 } else { 0u8 }),
    {
        let size = self.rows();
        let mut data: Vec<u8> = Vec::new();
        let mut r: usize = 0;
        while r < size
            invariant
                r <= size <= 4,
                size == self.size(),
                data.len() == r * size,
                forall|i: int, j: int|
                    0 <= i < r && 0 <= j < size ==> data[i * size + j] == (if self.at(i, j) {
                        1u8
                    } else {
                        0u8
                    }),
            decreases size - r,
        {
            let ghost done = data@;
            let mut c: usize = 0;
            while c < size
                invariant
                    r < size <= 4,
                    c <= size,
                    size == self.size(),
                    done.len() == r * size,
                    data.len() == r * size + c,
                    forall|k: int| 0 <= k < done.len() ==> data[k] == done[k],
                    forall|j: int|
                        0 <= j < c ==> data[r * size + j] == (if self.at(r as int, j) {
                            1u8
                        } else {
                            0u8
                        }),
                decreases size - c,
            {
                let byte: u8 = if self.filled(r, c) { 1 } else { 0 };
                data.push(byte);
                c += 1;
            }
            proof {
                assert((r + 1) * size == r * size + size) by (nonlinear_arith);
                assert forall|i: int, j: int| 0 <= i < r + 1 && 0 <= j < size implies data[i * size
                    + j] == (if self.at(i, j) { 1u8 } else { 0u8 }) by {
                    if i < r {
                        assert(i * size + j < r * size) by (nonlinear_arith)
                            requires
                                0 <= i < r,
                                0 <= j < size,
                        ;
                        assert(0 <= i * size + j) by (nonlinear_arith)
                            requires
                                0 <= i,
                                0 <= j,
                                0 <= size,
                        ;
                        assert(data[i * size + j] == done[i * size + j]);
                    }
                }
            }
            r += 1;
        }
        WasmPattern { data, size }
    }
}

/// The matrix of one rotation of the piece with the given index, as
/// bytes; a piece or a rotation that the catalog does not hold is refused.
pub fn get_piece_rotation(piece_idx: usize, rotation: usize) -> (flat: Result<WasmPattern, Error>)
    ensures
        flat is Ok <==> piece_idx < N_PIECES && rotation < rotation_count(piece_idx as int),
        flat matches Err(e) ==> e == (if piece_idx < N_PIECES {
            Error::RotationOutOfRange
        } else {
            Error::PieceOutOfRange
        }),
        flat matches Ok(p) ==> {
            &&& p.size == pattern_size(piece_idx as int)
            &&& p.data.len() == p.size * p.size
            &&& forall|r: int, c: int|
                0 <= r < p.size && 0 <= c < p.size ==> p.data[r * p.size + c] == (if shape(
                    piece_idx as int,
                    rotation as int,
                    r,
                    c,
                ) {
                    1u8
                } else {
                    0u8
                })
        },
{
    match Piece::from_index(piece_idx) {
        Ok(piece) => {
            if rotation < piece.num_rotations() {
                let pattern = piece.rotation(rotation);
                let flat = pattern.into_wasm();
                assert forall|r: int, c: int| 0 <= r < flat.size && 0 <= c < flat.size implies flat.data[r
                    * flat.size + c] == (if shape(piece_idx as int, rotation as int, r, c) {
                    1u8
                } else {
                    0u8
                }) by {
                    assert(pattern.at(r, c) == shape(piece_idx as int, rotation as int, r, c));
                }
                Ok(flat)
            } else {
                Err(Error::RotationOutOfRange)
            }
        },
        Err(e) => Err(e),
    }
}

} // verus!
