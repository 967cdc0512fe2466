use crate::error::Error;
use crate::moves::Move;
use crate::piece::{shape, Pattern};
use vstd::prelude::*;
use vstd::string::StringExecFns;

verus! {

/// Number of columns of the board.
pub const BOARD_WIDTH: usize = 10;

/// Number of rows of the board; row 0 is the top row.
pub const BOARD_HEIGHT: usize = 20;

/// A cell of the board: 0 is empty, any other value names the piece that
/// filled it.
#[derive(Copy, Clone, Debug, PartialEq, Eq, Structural)]
pub struct Cell(u8);

impl View for Cell {
    type V = u8;

    closed spec fn view(&self) -> u8 {
        self.0
    }
}

impl Default for Cell {
    fn default() -> (cell: Cell)
        ensures
            cell@ == 0,
    {
        Cell(0)
    }
}

impl Cell {
    /// Whether the cell holds a piece.
    pub open spec fn is_filled(&self) -> bool {
        self@ != 0
    }

    /// Two cells with the same value are the same cell.
    pub proof fn lemma_view_injective(a: Cell, b: Cell)
        ensures
            a@ == b@ <==> a == b,
    {
    }

    /// The cell with the given value.
    pub closed spec fn spec_new(inner: u8) -> Cell {
        Cell(inner)
    }

    /// The cell with the given value.
    pub fn new(inner: u8) -> (cell: Cell)
        ensures
            cell == Cell::spec_new(inner),
            cell@ == inner,
    {
        Cell(inner)
    }

    /// Returns true if the cell is occupied.
    pub fn filled(&self) -> (b: bool)
        ensures
            b == self.is_filled(),
    {
        self.0 != 0
    }

    /// Returns true if the cell is occupied.
    pub fn occupied(&self) -> (b: bool)
        ensures
            b == self.is_filled(),
    {
        self.0 != 0
    }

    /// Returns true if the cell is empty.
    pub fn empty(&self) -> (b: bool)
        ensures
            b == !self.is_filled(),
    {
        self.0 == 0
    }

    /// Returns the inner value of the cell.
    pub fn inner(&self) -> (v: u8)
        ensures
            v == self@,
    {
        self.0
    }

    /// The cell as a character: `#` if it is filled, `.` if it is empty.
    pub fn to_char(&self) -> (c: char)
        ensures
            c == (if self.is_filled() {
                '#'
            } else {
                '.'
            }),
    {
        if self.0 != 0 {
            '#'
        } else {
            '.'
        }
    }

    /// Lays `other` over this cell: an occupied `other` replaces it, an
    /// empty one leaves it as it is.
    pub fn add(&mut self, other: Cell)
        ensures
            final(self)@ == (if other.is_filled() { other@ } else { old(self)@ }),
    {
        if other.0 != 0 {
            self.0 = other.0;
        }
    }
}

/// Whether `(r, c)` names a cell of the board.
pub open spec fn on_board(r: int, c: int) -> bool {
    0 <= r < BOARD_HEIGHT && 0 <= c < BOARD_WIDTH
}

/// A Tetris board: a grid of cells with, for each column, the height of its
/// topmost filled cell above the floor.
#[derive(Copy, Clone, Debug)]
pub struct Board {
    data: [[Cell; 10]; 20],
    heights: [usize; 10],
}

impl Board {
    /// The cell at row `r`, column `c`.
    pub closed spec fn cell_at(&self, r: int, c: int) -> Cell {
        self.data[r][c]
    }

    /// The height recorded for column `c`.
    pub closed spec fn spec_height(&self, c: int) -> int {
        self.heights[c] as int
    }

    /// Whether `(r, c)` is on the board and holds a piece.
    pub open spec fn filled_at(&self, r: int, c: int) -> bool {
        on_board(r, c) && self.cell_at(r, c).is_filled()
    }

    /// Whether every cell of row `r` is filled.
    pub open spec fn row_full(&self, r: int) -> bool {
        forall|c: int| 0 <= c < BOARD_WIDTH ==> self.filled_at(r, c)
    }

    /// Whether no cell of row `r` is filled.
    pub open spec fn row_empty(&self, r: int) -> bool {
        forall|c: int| 0 <= c < BOARD_WIDTH ==> !self.filled_at(r, c)
    }

    /// Number of full rows among the rows `lo..hi`.
    pub open spec fn full_count(&self, lo: int, hi: int) -> int
        decreases hi - lo,
    {
        if lo >= hi {
            0
        } else {
            (if self.row_full(lo) { 1int } else { 0int }) + self.full_count(lo + 1, hi)
        }
    }

    /// Whether `h` is the height of column `c`: the column is empty above
    /// row `BOARD_HEIGHT - h`, and that row, if there is one, is filled.
    pub open spec fn is_height_of(&self, c: int, h: int) -> bool {
        &&& 0 <= h <= BOARD_HEIGHT
        &&& forall|r: int| 0 <= r < BOARD_HEIGHT - h ==> !self.filled_at(r, c)
        &&& h > 0 ==> self.filled_at(BOARD_HEIGHT - h, c)
    }

    /// The recorded heights are the heights of the columns.
    pub open spec fn wf(&self) -> bool {
        forall|c: int| 0 <= c < BOARD_WIDTH ==> self.is_height_of(c, self.spec_height(c))
    }

    /// Whether both boards hold the same cells.
    pub open spec fn same_cells(&self, other: &Board) -> bool {
        forall|r: int, c: int|
            on_board(r, c) ==> #[trigger] self.cell_at(r, c) == other.cell_at(r, c)
    }

    /// A column has one height only.
    pub proof fn lemma_height_unique(&self, c: int, h1: int, h2: int)
        requires
            self.is_height_of(c, h1),
            self.is_height_of(c, h2),
        ensures
            h1 == h2,
    {
        if h1 < h2 {
            assert(self.filled_at(BOARD_HEIGHT - h2, c));
        } else if h2 < h1 {
            assert(self.filled_at(BOARD_HEIGHT - h1, c));
        }
    }

    /// Scans column `col` from the top for its first filled cell.
    fn scan_height(data: &[[Cell; 10]; 20], col: usize) -> (h: usize)
        requires
            col < BOARD_WIDTH,
        ensures
            h <= BOARD_HEIGHT,
            forall|r: int| 0 <= r < BOARD_HEIGHT - h ==> data[r][col as int]@ == 0,
            h > 0 ==> data[BOARD_HEIGHT - h][col as int]@ != 0,
    {
        let mut r: usize = 0;
        while r < BOARD_HEIGHT
            invariant
                r <= BOARD_HEIGHT,
                col < BOARD_WIDTH,
                forall|i: int| 0 <= i < r ==> data[i][col as int]@ == 0,
            decreases BOARD_HEIGHT - r,
        {
            if data[r][col].filled() {
                return BOARD_HEIGHT - r;
            }
            r += 1;
        }
        0
    }

    /// Builds a board from its cells; the heights are derived from them.
    pub fn from_data(data: [[Cell; 10]; 20]) -> (board: Board)
        ensures
            board.wf(),
            forall|r: int, c: int| on_board(r, c) ==> #[trigger] board.cell_at(r, c) == data[r][c],
    {
        let mut heights: [usize; 10] = [0; 10];
        let mut c: usize = 0;
        while c < BOARD_WIDTH
            invariant
                c <= BOARD_WIDTH,
                forall|j: int|
                    0 <= j < c ==> {
                        &&& 0 <= #[trigger] heights[j] <= BOARD_HEIGHT
                        &&& forall|r: int| 0 <= r < BOARD_HEIGHT - heights[j] ==> data[r][j]@ == 0
                        &&& heights[j] > 0 ==> data[BOARD_HEIGHT - heights[j]][j]@ != 0
                    },
            decreases BOARD_WIDTH - c,
        {
            let h = Self::scan_height(&data, c);
            heights[c] = h;
            c += 1;
        }
        let board = Board { data, heights };
        assert forall|j: int| 0 <= j < BOARD_WIDTH implies board.is_height_of(
            j,
            board.spec_height(j),
        ) by {
            assert(0 <= heights[j] <= BOARD_HEIGHT);
        }
        board
    }

    /// Returns the height of the given column.
    pub fn height(&self, col: usize) -> (h: usize)
        requires
            col < BOARD_WIDTH,
        ensures
            h == self.spec_height(col as int),
    {
        self.heights[col]
    }

    /// The heights of all columns, left to right.
    pub fn heights(&self) -> (hs: &[usize; 10])
        ensures
            forall|c: int| 0 <= c < BOARD_WIDTH ==> hs[c] == self.spec_height(c),
    {
        &self.heights
    }

    /// The cells of the board, row by row from the top.
    pub fn get_data(&self) -> (data: &[[Cell; 10]; 20])
        ensures
            forall|r: int, c: int| on_board(r, c) ==> data[r][c] == #[trigger] self.cell_at(r, c),
    {
        &self.data
    }

    /// The cell at the given place.
    pub fn get(&self, row: usize, col: usize) -> (cell: Cell)
        requires
            row < BOARD_HEIGHT,
            col < BOARD_WIDTH,
        ensures
            cell == self.cell_at(row as int, col as int),
    {
        self.data[row][col]
    }
}

impl Board {
    /// Rows that hold the same cells are full together.
    pub proof fn lemma_row_full_same(&self, r: int, other: &Board, q: int)
        requires
            0 <= r < BOARD_HEIGHT,
            0 <= q < BOARD_HEIGHT,
            forall|c: int| 0 <= c < BOARD_WIDTH ==> self.cell_at(r, c) == other.cell_at(q, c),
        ensures
            self.row_full(r) == other.row_full(q),
    {
        if self.row_full(r) {
            assert forall|c: int| 0 <= c < BOARD_WIDTH implies other.filled_at(q, c) by {
                assert(self.filled_at(r, c));
            }
        }
        if other.row_full(q) {
            assert forall|c: int| 0 <= c < BOARD_WIDTH implies self.filled_at(r, c) by {
                assert(other.filled_at(q, c));
            }
        }
    }

    /// The count of full rows lies between zero and the number of rows.
    pub proof fn lemma_full_count_bounds(&self, lo: int, hi: int)
        requires
            lo <= hi,
        ensures
            0 <= self.full_count(lo, hi) <= hi - lo,
        decreases hi - lo,
    {
        if lo < hi {
            self.lemma_full_count_bounds(lo + 1, hi);
        }
    }

    /// Whether every cell of row `row` is filled.
    pub fn is_row_full(&self, row: usize) -> (b: bool)
        requires
            row < BOARD_HEIGHT,
        ensures
            b == self.row_full(row as int),
    {
        let mut c: usize = 0;
        while c < BOARD_WIDTH
            invariant
                c <= BOARD_WIDTH,
                row < BOARD_HEIGHT,
                forall|j: int| 0 <= j < c ==> self.filled_at(row as int, j),
            decreases BOARD_WIDTH - c,
        {
            if !self.data[row][c].filled() {
                assert(!self.filled_at(row as int, c as int));
                return false;
            }
            c += 1;
        }
        true
    }

    /// Recomputes every height from the cells.
    fn rescan_heights(&mut self)
        ensures
            final(self).wf(),
            final(self).same_cells(old(self)),
    {
        let board = Board::from_data(self.data);
        *self = board;
    }

    /// The row that row `r` sinks to when the full rows are cleared: it
    /// moves down by the number of full rows below it.
    pub open spec fn sink_row(&self, r: int) -> int {
        r + self.full_count(r + 1, BOARD_HEIGHT as int)
    }

    /// Whether `after` is this board with its full rows cleared, and
    /// `rows` the indices of those rows, bottom row first: every row that
    /// is not full has sunk by the number of full rows below it, as many
    /// rows at the top as were cleared are empty, and the heights are
    /// those of the new columns.
    pub open spec fn cleared_to(&self, after: &Board, rows: Seq<usize>) -> bool {
        &&& rows.len() == self.full_count(0, BOARD_HEIGHT as int)
        &&& forall|i: int|
            0 <= i < rows.len() ==> rows[i] < BOARD_HEIGHT && self.row_full(
                #[trigger] rows[i] as int,
            )
        &&& forall|i: int, j: int| 0 <= i < j < rows.len() ==> rows[i] > rows[j]
        &&& forall|r: int|
            0 <= r < BOARD_HEIGHT && self.row_full(r) ==> exists|i: int|
                0 <= i < rows.len() && rows[i] == r
        &&& forall|r: int, c: int|
            on_board(r, c) && !self.row_full(r) ==> after.cell_at(self.sink_row(r), c)
                == self.cell_at(r, c)
        &&& forall|r: int, c: int| on_board(r, c) && r < rows.len() ==> after.cell_at(r, c)@ == 0
        &&& forall|r: int| 0 <= r < BOARD_HEIGHT ==> !after.row_full(r)
        &&& after.wf()
    }

    /// Without full rows every row stays where it is.
    pub proof fn lemma_no_full_rows(&self, lo: int)
        requires
            0 <= lo <= BOARD_HEIGHT,
            forall|r: int| 0 <= r < BOARD_HEIGHT ==> !self.row_full(r),
        ensures
            self.full_count(lo, BOARD_HEIGHT as int) == 0,
        decreases BOARD_HEIGHT - lo,
    {
        if lo < BOARD_HEIGHT {
            self.lemma_no_full_rows(lo + 1);
        }
    }

    /// Clearing a board twice: the second clearing finds no full row and
    /// leaves the board as the first one left it.
    #[verifier::rlimit(40)]
    pub proof fn lemma_clear_twice(
        &self,
        once: &Board,
        first: Seq<usize>,
        twice: &Board,
        second: Seq<usize>,
    )
        requires
            self.cleared_to(once, first),
            once.cleared_to(twice, second),
        ensures
            second.len() == 0,
            twice.same_cells(once),
            forall|c: int| 0 <= c < BOARD_WIDTH ==> twice.spec_height(c) == once.spec_height(c),
    {
        once.lemma_no_full_rows(0);
        assert forall|r: int, c: int| on_board(r, c) implies #[trigger] twice.cell_at(r, c)
            == once.cell_at(r, c) by {
            once.lemma_no_full_rows(r + 1);
            assert(once.sink_row(r) == r);
        }
        assert forall|c: int| 0 <= c < BOARD_WIDTH implies twice.spec_height(c)
            == once.spec_height(c) by {
            let h = once.spec_height(c);
            assert(once.is_height_of(c, h));
            assert(twice.is_height_of(c, twice.spec_height(c)));
            assert forall|r: int| 0 <= r < BOARD_HEIGHT - h implies !twice.filled_at(r, c) by {
                assert(!once.filled_at(r, c));
            }
            if h > 0 {
                assert(once.filled_at(BOARD_HEIGHT - h, c));
            }
            assert(twice.is_height_of(c, h));
            twice.lemma_height_unique(c, h, twice.spec_height(c));
        }
    }

    /// A row that a piece has filled up is among the rows that the next
    /// clearing returns.
    pub proof fn lemma_imprinted_row_clears(
        &self,
        placed: &Board,
        pattern: Pattern,
        row: int,
        col: int,
        cell: Cell,
        after: &Board,
        rows: Seq<usize>,
        r: int,
    )
        requires
            self.imprinted(placed, pattern, row, col, cell),
            placed.cleared_to(after, rows),
            0 <= r < BOARD_HEIGHT,
            placed.row_full(r),
        ensures
            exists|i: int| 0 <= i < rows.len() && rows[i] == r,
    {
    }

    /// A row without cells.
    fn empty_row() -> (row: [Cell; 10])
        ensures
            forall|c: int| 0 <= c < BOARD_WIDTH ==> row[c]@ == 0,
    {
        [Cell(0); 10]
    }

    /// What holds while the rows are cleared from the bottom up, when the
    /// rows from `r` on are done and the rows from `w` on are written:
    /// the rows above `r` are as at the start, every row from `r` on that
    /// is not full has sunk to its place, and no row from `w` on is full.
    #[verifier::opaque]
    spec fn settling(&self, start: &Board, r: int, w: int) -> bool {
        &&& 0 <= r <= w <= BOARD_HEIGHT
        &&& w - r == start.full_count(r, BOARD_HEIGHT as int)
        &&& forall|i: int, c: int|
            0 <= i < r && 0 <= c < BOARD_WIDTH ==> #[trigger] self.cell_at(i, c) == start.cell_at(
                i,
                c,
            )
        &&& forall|q: int|
            r <= q < BOARD_HEIGHT && !start.row_full(q) ==> w <= #[trigger] start.sink_row(q)
                < BOARD_HEIGHT
        &&& forall|q: int, c: int|
            r <= q < BOARD_HEIGHT && 0 <= c < BOARD_WIDTH && !start.row_full(q) ==> self.cell_at(
                start.sink_row(q),
                c,
            ) == #[trigger] start.cell_at(q, c)
        &&& forall|i: int| w <= i < BOARD_HEIGHT ==> !self.row_full(i)
    }

    proof fn lemma_settling_begins(&self)
        ensures
            self.settling(self, BOARD_HEIGHT as int, BOARD_HEIGHT as int),
    {
        reveal(Board::settling);
    }

    /// A full row is left out: nothing is written.
    proof fn lemma_settling_skips(&self, start: &Board, r: int, w: int)
        requires
            self.settling(start, r + 1, w),
            0 <= r,
            start.row_full(r),
        ensures
            self.settling(start, r, w),
            self.row_full(r),
    {
        reveal(Board::settling);
        self.lemma_row_full_same(r, start, r);
    }

    /// A row that is not full is written to its place.
    #[verifier::rlimit(40)]
    proof fn lemma_settling_keeps(&self, before: &Board, start: &Board, r: int, w: int)
        requires
            before.settling(start, r + 1, w + 1),
            0 <= r,
            !start.row_full(r),
            forall|x: int, c: int|
                on_board(x, c) ==> #[trigger] self.cell_at(x, c) == if x == w {
                    before.cell_at(r, c)
                } else {
                    before.cell_at(x, c)
                },
        ensures
            self.settling(start, r, w),
    {
        reveal(Board::settling);
        assert(start.sink_row(r) == w);
        assert forall|i: int| w <= i < BOARD_HEIGHT implies !self.row_full(i) by {
            if i == w {
                self.lemma_row_full_same(i, start, r);
            } else {
                self.lemma_row_full_same(i, before, i);
            }
        }
        assert forall|q: int, c: int|
            r <= q < BOARD_HEIGHT && 0 <= c < BOARD_WIDTH && !start.row_full(q) implies self.cell_at(
            start.sink_row(q),
            c,
        ) == #[trigger] start.cell_at(q, c) by {
            if q > r {
                assert(w + 1 <= start.sink_row(q) < BOARD_HEIGHT);
                assert(before.cell_at(start.sink_row(q), c) == start.cell_at(q, c));
            }
        }
    }

    /// The next row to be done is as at the start.
    proof fn lemma_settling_row(&self, start: &Board, r: int, w: int)
        requires
            self.settling(start, r + 1, w),
            0 <= r < BOARD_HEIGHT,
        ensures
            self.row_full(r) == start.row_full(r),
            r + 1 <= w <= BOARD_HEIGHT,
    {
        reveal(Board::settling);
        self.lemma_row_full_same(r, start, r);
    }

    /// When all rows are done, emptying the rows above the written ones
    /// gives the cleared board.
    #[verifier::rlimit(40)]
    proof fn lemma_settling_ends(&self, settled: &Board, start: &Board, w: int)
        requires
            settled.settling(start, 0, w),
            forall|x: int, c: int|
                on_board(x, c) ==> #[trigger] self.cell_at(x, c) == if x < w {
                    Cell(0)
                } else {
                    settled.cell_at(x, c)
                },
        ensures
            w == start.full_count(0, BOARD_HEIGHT as int),
            forall|r: int, c: int|
                on_board(r, c) && !start.row_full(r) ==> self.cell_at(start.sink_row(r), c)
                    == start.cell_at(r, c),
            forall|r: int, c: int| on_board(r, c) && r < w ==> self.cell_at(r, c)@ == 0,
            forall|r: int| 0 <= r < BOARD_HEIGHT ==> !self.row_full(r),
    {
        reveal(Board::settling);
        assert forall|r: int, c: int| on_board(r, c) && !start.row_full(r) implies self.cell_at(
            start.sink_row(r),
            c,
        ) == start.cell_at(r, c) by {
            assert(w <= start.sink_row(r) < BOARD_HEIGHT);
            assert(settled.cell_at(start.sink_row(r), c) == start.cell_at(r, c));
        }
        assert forall|r: int| 0 <= r < BOARD_HEIGHT implies !self.row_full(r) by {
            if r < w {
                assert(on_board(r, 0));
                assert(self.cell_at(r, 0)@ == 0);
                assert(!self.filled_at(r, 0));
            } else {
                self.lemma_row_full_same(r, settled, r);
            }
        }
    }

    /// Clears the full rows and returns their indices, bottom row first.
    ///
    /// Every row that is not full sinks by the number of full rows below
    /// it, as many rows at the top as were cleared become empty, and the
    /// heights are those of the new columns. The indices name the rows as
    /// they lay before the call.
    #[verifier::rlimit(40)]
    pub fn clear_full(&mut self) -> (rows: Vec<usize>)
        ensures
            old(self).cleared_to(final(self), rows@),
    {
        let ghost start = *self;
        let mut rows: Vec<usize> = Vec::new();
        let mut r: usize = BOARD_HEIGHT;
        let mut w: usize = BOARD_HEIGHT;
        proof {
            self.lemma_settling_begins();
        }
        while r > 0
            invariant
                r <= w <= BOARD_HEIGHT,
                self.settling(&start, r as int, w as int),
                rows.len() == w - r,
                forall|i: int|
                    0 <= i < rows.len() ==> r <= rows[i] < BOARD_HEIGHT && start.row_full(
                        #[trigger] rows[i] as int,
                    ),
                forall|i: int, j: int| 0 <= i < j < rows.len() ==> rows[i] > rows[j],
                forall|q: int|
                    r <= q < BOARD_HEIGHT && start.row_full(q) ==> exists|i: int|
                        0 <= i < rows.len() && rows[i] == q,
            decreases r,
        {
            r -= 1;
            proof {
                self.lemma_settling_row(&start, r as int, w as int);
            }
            let ghost before = *self;
            let ghost seen = rows@;
            if self.is_row_full(r) {
                rows.push(r);
                proof {
                    self.lemma_settling_skips(&start, r as int, w as int);
                }
                assert forall|q: int|
                    r <= q < BOARD_HEIGHT && start.row_full(q) implies exists|i: int|
                    0 <= i < rows.len() && rows[i] == q by {
                    if q == r {
                        assert(rows[rows.len() - 1] == q);
                    } else {
                        let i = choose|i: int| 0 <= i < seen.len() && seen[i] == q;
                        assert(rows[i] == q);
                    }
                }
            } else {
                w -= 1;
                self.data[w] = self.data[r];
                proof {
                    assert(forall|x: int, c: int|
                        on_board(x, c) ==> #[trigger] self.cell_at(x, c) == if x == w {
                            before.cell_at(r as int, c)
                        } else {
                            before.cell_at(x, c)
                        });
                    self.lemma_settling_keeps(&before, &start, r as int, w as int);
                }
                assert forall|q: int|
                    r <= q < BOARD_HEIGHT && start.row_full(q) implies exists|i: int|
                    0 <= i < rows.len() && rows[i] == q by {
                    let i = choose|i: int| 0 <= i < seen.len() && seen[i] == q;
                    assert(rows[i] == q);
                }
            }
        }
        let ghost settled = *self;
        let mut i: usize = 0;
        while i < w
            invariant
                i <= w <= BOARD_HEIGHT,
                forall|x: int, c: int|
                    on_board(x, c) ==> #[trigger] self.cell_at(x, c) == if x < i {
                        Cell(0)
                    } else {
                        settled.cell_at(x, c)
                    },
            decreases w - i,
        {
            let ghost before = *self;
            let blank = Self::empty_row();
            self.data[i] = blank;
            assert(forall|x: int, c: int|
                on_board(x, c) ==> #[trigger] self.cell_at(x, c) == if x == i {
                    blank[c]
                } else {
                    before.cell_at(x, c)
                });
            i += 1;
        }
        let ghost cleared = *self;
        self.rescan_heights();
        proof {
            cleared.lemma_settling_ends(&settled, &start, w as int);
            assert forall|q: int| 0 <= q < BOARD_HEIGHT implies !self.row_full(q) by {
                self.lemma_row_full_same(q, &cleared, q);
            }
            assert forall|q: int, c: int| on_board(q, c) && !start.row_full(q) implies self.cell_at(
                start.sink_row(q),
                c,
            ) == start.cell_at(q, c) by {
                start.lemma_sink_range(q);
            }
        }
        rows
    }

    /// A row sinks to a row of the board.
    pub proof fn lemma_sink_range(&self, r: int)
        requires
            0 <= r < BOARD_HEIGHT,
        ensures
            r <= self.sink_row(r) < BOARD_HEIGHT,
    {
        self.lemma_full_count_bounds(r + 1, BOARD_HEIGHT as int);
    }
}

impl Board {
    /// Fills one cell and raises the height of its column to it.
    pub fn fill_cell(&mut self, row: usize, col: usize)
        requires
            row < BOARD_HEIGHT,
            col < BOARD_WIDTH,
        ensures
            final(self).cell_at(row as int, col as int)@ == 1,
            forall|r: int, c: int|
                on_board(r, c) && !(r == row && c == col) ==> #[trigger] final(self).cell_at(r, c)
                    == old(self).cell_at(r, c),
            final(self).spec_height(col as int) == if old(self).spec_height(col as int)
                >= BOARD_HEIGHT - row {
                old(self).spec_height(col as int)
            } else {
                BOARD_HEIGHT - row
            },
            forall|c: int|
                0 <= c < BOARD_WIDTH && c != col ==> final(self).spec_height(c) == old(self).spec_height(c),
            old(self).wf() ==> final(self).wf(),
    {
        self.put(row, col, Cell(1));
        proof {
            if old(self).wf() {
                assert forall|c: int| 0 <= c < BOARD_WIDTH implies self.is_height_of(
                    c,
                    self.spec_height(c),
                ) by {
                    assert(old(self).is_height_of(c, old(self).spec_height(c)));
                    let h = old(self).spec_height(c);
                    if h > 0 {
                        assert(old(self).filled_at(BOARD_HEIGHT - h, c));
                    }
                    assert forall|r: int| 0 <= r < BOARD_HEIGHT - self.spec_height(c) implies !self.filled_at(
                        r,
                        c,
                    ) by {
                        assert(!old(self).filled_at(r, c));
                    }
                }
            }
        }
    }

    /// Empties one cell; when it was the top of its column, the height of
    /// the column falls to the next filled cell below.
    pub fn clear_cell(&mut self, row: usize, col: usize)
        requires
            row < BOARD_HEIGHT,
            col < BOARD_WIDTH,
        ensures
            final(self).cell_at(row as int, col as int)@ == 0,
            forall|r: int, c: int|
                on_board(r, c) && !(r == row && c == col) ==> #[trigger] final(self).cell_at(r, c)
                    == old(self).cell_at(r, c),
            old(self).spec_height(col as int) == BOARD_HEIGHT - row ==> final(self).is_height_of(
                col as int,
                final(self).spec_height(col as int),
            ),
            old(self).spec_height(col as int) != BOARD_HEIGHT - row ==> final(self).spec_height(
                col as int,
            ) == old(self).spec_height(col as int),
            forall|c: int|
                0 <= c < BOARD_WIDTH && c != col ==> final(self).spec_height(c) == old(self).spec_height(c),
            old(self).wf() ==> final(self).wf(),
    {
        self.data[row][col] = Cell(0);
        if self.heights[col] == BOARD_HEIGHT - row {
            let h = Self::scan_height(&self.data, col);
            self.heights[col] = h;
        }
        proof {
            if old(self).wf() {
                assert forall|c: int| 0 <= c < BOARD_WIDTH implies self.is_height_of(
                    c,
                    self.spec_height(c),
                ) by {
                    assert(old(self).is_height_of(c, old(self).spec_height(c)));
                    let h = old(self).spec_height(c);
                    if h > 0 {
                        assert(old(self).filled_at(BOARD_HEIGHT - h, c));
                    }
                    assert forall|r: int| 0 <= r < BOARD_HEIGHT - self.spec_height(c) implies !self.filled_at(
                        r,
                        c,
                    ) by {
                        if c != col || old(self).spec_height(c) != BOARD_HEIGHT - row {
                            assert(!old(self).filled_at(r, c));
                        }
                    }
                }
            }
        }
    }
}

impl Board {
    /// Whether a cell of a piece may not lie at `(r, c)`: the place is
    /// below the floor, beside the board, or filled. Above the top row
    /// every column of the board is free.
    pub open spec fn blocked(&self, r: int, c: int) -> bool {
        r >= BOARD_HEIGHT || c < 0 || c >= BOARD_WIDTH || (r >= 0 && self.cell_at(r, c).is_filled())
    }

    /// Whether a filled cell of the given rotation, with the top left
    /// corner of its matrix at `(row, col)`, lies on a blocked place.
    pub open spec fn overlaps_at(&self, piece: int, rot: int, row: int, col: int) -> bool {
        exists|r: int, c: int| shape(piece, rot, r, c) && self.blocked(row + r, col + c)
    }

    /// Whether the move overlaps the floor, the sides or a filled cell.
    pub open spec fn overlaps_spec(&self, m: Move) -> bool {
        self.overlaps_at(m.piece@, m.pos.rot as int, m.pos.row as int, m.pos.col as int)
    }

    /// Returns true if the move overlaps with the board: if one of its
    /// filled cells lies below the floor, beside the board or on a filled
    /// cell.
    #[verifier::rlimit(40)]
    pub fn overlaps_move(&self, m: Move) -> (b: bool)
        requires
            m.wf(),
        ensures
            b == self.overlaps_spec(m),
    {
        let pattern = m.pattern();
        let size = pattern.rows();
        let ghost piece = m.piece@;
        let ghost rot = m.pos.rot as int;
        let mut r: usize = 0;
        while r < size
            invariant
                r <= size <= 4,
                size == pattern.size(),
                pattern.piece() == piece,
                pattern.rot() == rot,
                piece == m.piece@,
                rot == m.pos.rot,
                forall|i: int, j: int|
                    0 <= i < r && #[trigger] shape(piece, rot, i, j) ==> !self.blocked(
                        m.pos.row + i,
                        m.pos.col + j,
                    ),
            decreases size - r,
        {
            let mut c: usize = 0;
            while c < size
                invariant
                    r < size <= 4,
                    c <= size,
                    size == pattern.size(),
                    pattern.piece() == piece,
                    pattern.rot() == rot,
                    piece == m.piece@,
                    rot == m.pos.rot,
                    forall|i: int, j: int|
                        0 <= i < r && #[trigger] shape(piece, rot, i, j) ==> !self.blocked(
                            m.pos.row + i,
                            m.pos.col + j,
                        ),
                    forall|j: int|
                        0 <= j < c && #[trigger] shape(piece, rot, r as int, j) ==> !self.blocked(
                            m.pos.row + r,
                            m.pos.col + j,
                        ),
                decreases size - c,
            {
                if pattern.filled(r, c) {
                    let row: i128 = m.pos.row as i128 + r as i128;
                    let col: i128 = m.pos.col as i128 + c as i128;
                    if row >= 20 || col < 0 || col >= 10 {
                        assert(shape(piece, rot, r as int, c as int) && self.blocked(
                            m.pos.row + r,
                            m.pos.col + c,
                        ));
                        return true;
                    }
                    if row >= 0 {
                        if self.data[row as usize][col as usize].filled() {
                            assert(shape(piece, rot, r as int, c as int) && self.blocked(
                                m.pos.row + r,
                                m.pos.col + c,
                            ));
                            return true;
                        }
                    }
                }
                c += 1;
            }
            r += 1;
        }
        false
    }

    /// Whether the matrix, with its top left corner at the given cell,
    /// does not lie on the board as a whole or has a filled cell on a
    /// filled cell of the board.
    pub open spec fn overlaps_whole(&self, pattern: Pattern, row: int, col: int) -> bool {
        row + pattern.size() > BOARD_HEIGHT || col + pattern.size() > BOARD_WIDTH || exists|
            r: int,
            c: int,
        | pattern.at(r, c) && self.filled_at(row + r, col + c)
    }

    /// Returns true if the matrix, with its top left corner at the given
    /// cell, does not lie on the board as a whole or has a filled cell on
    /// a filled cell of the board.
    pub fn overlaps(&self, pattern: &Pattern, row: usize, col: usize) -> (b: bool)
        ensures
            b == self.overlaps_whole(*pattern, row as int, col as int),
    {
        let size = pattern.rows();
        if row > BOARD_HEIGHT || col > BOARD_WIDTH || row + size > BOARD_HEIGHT || col + size
            > BOARD_WIDTH {
            return true;
        }
        let mut r: usize = 0;
        while r < size
            invariant
                r <= size <= 4,
                size == pattern.size(),
                row + size <= BOARD_HEIGHT,
                col + size <= BOARD_WIDTH,
                forall|i: int, j: int|
                    0 <= i < r && #[trigger] pattern.at(i, j) ==> !self.filled_at(row + i, col + j),
            decreases size - r,
        {
            let mut c: usize = 0;
            while c < size
                invariant
                    r < size <= 4,
                    c <= size,
                    size == pattern.size(),
                    row + size <= BOARD_HEIGHT,
                    col + size <= BOARD_WIDTH,
                    forall|i: int, j: int|
                        0 <= i < r && #[trigger] pattern.at(i, j) ==> !self.filled_at(
                            row + i,
                            col + j,
                        ),
                    forall|j: int|
                        0 <= j < c && #[trigger] pattern.at(r as int, j) ==> !self.filled_at(
                            row + r,
                            col + j,
                        ),
                decreases size - c,
            {
                if pattern.filled(r, c) && self.data[row + r][col + c].filled() {
                    assert(pattern.at(r as int, c as int) && self.filled_at(row + r, col + c));
                    return true;
                }
                c += 1;
            }
            r += 1;
        }
        false
    }

    /// Writes one cell and raises the height of its column to it.
    fn put(&mut self, row: usize, col: usize, cell: Cell)
        requires
            row < BOARD_HEIGHT,
            col < BOARD_WIDTH,
        ensures
            final(self).cell_at(row as int, col as int) == cell,
            forall|r: int, c: int|
                on_board(r, c) && !(r == row && c == col) ==> #[trigger] final(self).cell_at(r, c)
                    == old(self).cell_at(r, c),
            final(self).spec_height(col as int) == if old(self).spec_height(col as int)
                >= BOARD_HEIGHT - row {
                old(self).spec_height(col as int)
            } else {
                BOARD_HEIGHT - row
            },
            forall|c: int|
                0 <= c < BOARD_WIDTH && c != col ==> final(self).spec_height(c) == old(self).spec_height(c),
    {
        self.data[row][col] = cell;
        if self.heights[col] < BOARD_HEIGHT - row {
            self.heights[col] = BOARD_HEIGHT - row;
        }
    }

    /// Whether the board `after` is this board with the pattern written
    /// on it: the cells under filled cells of the matrix hold `cell`, all
    /// others are as before, and each column is as high as before or as
    /// its topmost written cell, whichever is higher.
    pub open spec fn imprinted(
        &self,
        after: &Board,
        pattern: Pattern,
        row: int,
        col: int,
        cell: Cell,
    ) -> bool {
        &&& forall|r: int, c: int|
            on_board(r, c) ==> #[trigger] after.cell_at(r, c) == if pattern.at(r - row, c - col) {
                cell
            } else {
                self.cell_at(r, c)
            }
        &&& forall|c: int|
            0 <= c < BOARD_WIDTH ==> self.imprinted_height(
                pattern,
                row,
                col,
                c,
                #[trigger] after.spec_height(c),
            )
    }

    /// Whether `h` is the greater of the height of column `c` and the
    /// height of the topmost cell that the pattern writes in it.
    pub open spec fn imprinted_height(&self, pattern: Pattern, row: int, col: int, c: int, h: int) -> bool {
        &&& h >= self.spec_height(c)
        &&& forall|r: int|
            0 <= r < BOARD_HEIGHT && #[trigger] pattern.at(r - row, c - col) ==> h >= BOARD_HEIGHT
                - r
        &&& h == self.spec_height(c) || exists|r: int|
            0 <= r < BOARD_HEIGHT && #[trigger] pattern.at(r - row, c - col) && h == BOARD_HEIGHT
                - r
    }

    /// Writing filled cells on a board with true heights leaves the
    /// heights true.
    #[verifier::rlimit(40)]
    pub proof fn lemma_imprinted_wf(
        &self,
        after: &Board,
        pattern: Pattern,
        row: int,
        col: int,
        cell: Cell,
    )
        requires
            self.wf(),
            cell.is_filled(),
            self.imprinted(after, pattern, row, col, cell),
        ensures
            after.wf(),
    {
        assert forall|c: int| 0 <= c < BOARD_WIDTH implies after.is_height_of(
            c,
            after.spec_height(c),
        ) by {
            let h = after.spec_height(c);
            let h0 = self.spec_height(c);
            assert(self.is_height_of(c, h0));
            assert(self.imprinted_height(pattern, row, col, c, h));
            assert forall|r: int| 0 <= r < BOARD_HEIGHT - h implies !after.filled_at(r, c) by {
                assert(!self.filled_at(r, c));
                assert(on_board(r, c));
                if pattern.at(r - row, c - col) {
                    assert(h >= BOARD_HEIGHT - r);
                }
            }
            if h > 0 {
                let top = BOARD_HEIGHT - h;
                assert(on_board(top, c));
                if h == h0 {
                    assert(self.filled_at(top, c));
                } else {
                    let r = choose|r: int|
                        0 <= r < BOARD_HEIGHT && #[trigger] pattern.at(r - row, c - col) && h
                            == BOARD_HEIGHT - r;
                    assert(r == top);
                }
            }
        }
    }

    /// Imprints the given matrix onto the board with the top left corner
    /// of the matrix at the given row and column: every filled cell of the
    /// matrix that falls on the board is written there as `cell`, and the
    /// height of its column is raised to it. Filled cells that fall
    /// outside the board are left out.
    #[verifier::rlimit(40)]
    pub fn imprint(&mut self, pattern: Pattern, row: isize, col: isize, cell: Cell)
        ensures
            old(self).imprinted(final(self), pattern, row as int, col as int, cell),
            old(self).wf() && cell.is_filled() ==> final(self).wf(),
    {
        let size = pattern.rows();
        let ghost start = *self;
        let mut r: usize = 0;
        while r < size
            invariant
                r <= size <= 4,
                size == pattern.size(),
                forall|x: int, y: int|
                    on_board(x, y) ==> #[trigger] self.cell_at(x, y) == if pattern.at(
                        x - row,
                        y - col,
                    ) && x - row < r {
                        cell
                    } else {
                        start.cell_at(x, y)
                    },
                forall|y: int| 0 <= y < BOARD_WIDTH ==> #[trigger] self.spec_height(y) >= start.spec_height(y),
                forall|x: int, y: int|
                    on_board(x, y) && #[trigger] pattern.at(x - row, y - col) && x - row < r
                        ==> self.spec_height(y) >= BOARD_HEIGHT - x,
                forall|y: int|
                    0 <= y < BOARD_WIDTH ==> #[trigger] self.spec_height(y) == start.spec_height(y)
                        || exists|x: int|
                        0 <= x < BOARD_HEIGHT && #[trigger] pattern.at(x - row, y - col)
                            && self.spec_height(y) == BOARD_HEIGHT - x,
            decreases size - r,
        {
            let mut c: usize = 0;
            while c < size
                invariant
                    r < size <= 4,
                    c <= size,
                    size == pattern.size(),
                    forall|x: int, y: int|
                        on_board(x, y) ==> #[trigger] self.cell_at(x, y) == if pattern.at(
                            x - row,
                            y - col,
                        ) && (x - row < r || (x - row == r && y - col < c)) {
                            cell
                        } else {
                            start.cell_at(x, y)
                        },
                    forall|y: int|
                        0 <= y < BOARD_WIDTH ==> #[trigger] self.spec_height(y)
                            >= start.spec_height(y),
                    forall|x: int, y: int|
                        on_board(x, y) && #[trigger] pattern.at(x - row, y - col) && (x - row < r
                            || (x - row == r && y - col < c)) ==> self.spec_height(y)
                            >= BOARD_HEIGHT - x,
                    forall|y: int|
                        0 <= y < BOARD_WIDTH ==> #[trigger] self.spec_height(y)
                            == start.spec_height(y) || exists|x: int|
                            0 <= x < BOARD_HEIGHT && #[trigger] pattern.at(x - row, y - col)
                                && self.spec_height(y) == BOARD_HEIGHT - x,
                decreases size - c,
            {
                if pattern.filled(r, c) {
                    let x: i128 = row as i128 + r as i128;
                    let y: i128 = col as i128 + c as i128;
                    if 0 <= x && x < 20 && 0 <= y && y < 10 {
                        let ghost before = *self;
                        self.put(x as usize, y as usize, cell);
                        assert(pattern.at(x - row, y - col));
                        assert forall|q: int| 0 <= q < BOARD_WIDTH implies #[trigger] self.spec_height(q)
                            == start.spec_height(q) || exists|p: int|
                            0 <= p < BOARD_HEIGHT && #[trigger] pattern.at(p - row, q - col)
                                && self.spec_height(q) == BOARD_HEIGHT - p by {
                            if q == y && self.spec_height(q) != before.spec_height(q) {
                                assert(pattern.at(x - row, q - col) && self.spec_height(q)
                                    == BOARD_HEIGHT - x);
                            } else {
                                assert(self.spec_height(q) == before.spec_height(q));
                            }
                        }
                    }
                }
                c += 1;
            }
            r += 1;
        }
        proof {
            assert forall|c: int| 0 <= c < BOARD_WIDTH implies start.imprinted_height(
                pattern,
                row as int,
                col as int,
                c,
                #[trigger] self.spec_height(c),
            ) by {
                assert forall|x: int|
                    0 <= x < BOARD_HEIGHT && #[trigger] pattern.at(x - row, c - col) implies self.spec_height(
                    c,
                ) >= BOARD_HEIGHT - x by {
                    assert(on_board(x, c));
                }
            }
            if start.wf() && cell.is_filled() {
                start.lemma_imprinted_wf(self, pattern, row as int, col as int, cell);
            }
        }
    }
}

/// Number of characters of a board written as text, from the first cell
/// to the last: twenty rows of ten cells, and a line feed between rows.
pub const BOARD_TEXT_LEN: usize = 219;

/// Whether the character is blank: a space, a tab, a line feed or a
/// carriage return.
pub open spec fn is_blank(c: char) -> bool {
    c == ' ' || c == '\n' || c == '\t' || c == '\r'
}

/// The place of the first character at or after `i` that is not blank, or
/// the length of the text if there is none.
pub open spec fn skip_blank(text: Seq<char>, i: int) -> int
    decreases text.len() - i,
{
    if 0 <= i < text.len() && is_blank(text[i]) {
        skip_blank(text, i + 1)
    } else {
        i
    }
}

/// Whether the text is a board: after blank characters, twenty rows of
/// ten characters, each `#` for a filled cell or `.` for an empty one,
/// with one line feed between two rows, and after them blank characters
/// only.
pub open spec fn is_board_text(text: Seq<char>) -> bool {
    let first = skip_blank(text, 0);
    &&& first + BOARD_TEXT_LEN <= text.len()
    &&& forall|r: int, c: int|
        on_board(r, c) ==> {
            let ch = #[trigger] text[first + 11 * r + c];
            ch == '#' || ch == '.'
        }
    &&& forall|r: int| 0 <= r < BOARD_HEIGHT - 1 ==> #[trigger] text[first + 11 * r + 10] == '\n'
    &&& forall|i: int| first + BOARD_TEXT_LEN <= i < text.len() ==> is_blank(#[trigger] text[i])
}

/// The board written as text: a line feed, then row after row, each
/// followed by a line feed; `#` stands for a filled cell, `.` for an empty
/// one.
pub open spec fn board_text(board: &Board) -> Seq<char> {
    Seq::new(
        221,
        |i: int|
            if i == 0 || (i - 1) % 11 == 10 {
                '\n'
            } else if board.filled_at((i - 1) / 11, (i - 1) % 11) {
                '#'
            } else {
                '.'
            },
    )
}

impl Board {
    /// Reads a board from text. A text that is no board is refused.
    #[verifier::rlimit(40)]
    pub fn from_str(s: &str) -> (parsed: Result<Board, Error>)
        ensures
            parsed is Ok <==> is_board_text(s@),
            parsed matches Err(e) ==> e == Error::InvalidBoardText,
            parsed matches Ok(board) ==> {
                &&& board.wf()
                &&& forall|r: int, c: int|
                    on_board(r, c) ==> (#[trigger] board.cell_at(r, c))@ == (if s@[skip_blank(s@, 0)
                        + 11 * r + c] == '#' {
                        1u8
                    } else {
                        0u8
                    })
            },
    {
        let len = s.unicode_len();
        let mut first: usize = 0;
        while first < len && Self::blank(s.get_char(first))
            invariant
                first <= len,
                len == s@.len(),
                skip_blank(s@, 0) == skip_blank(s@, first as int),
            decreases len - first,
        {
            first += 1;
        }
        assert(skip_blank(s@, 0) == first);
        if len - first < BOARD_TEXT_LEN {
            return Err(Error::InvalidBoardText);
        }
        let mut data: [[Cell; 10]; 20] = [[Cell(0); 10]; 20];
        let mut r: usize = 0;
        while r < BOARD_HEIGHT
            invariant
                r <= BOARD_HEIGHT,
                len == s@.len(),
                first == skip_blank(s@, 0),
                first + BOARD_TEXT_LEN <= len,
                forall|i: int, j: int|
                    0 <= i < r && 0 <= j < BOARD_WIDTH ==> {
                        let ch = #[trigger] s@[first + 11 * i + j];
                        (ch == '#' || ch == '.') && data[i][j]@ == (if ch == '#' {
                            1u8
                        } else {
                            0u8
                        })
                    },
                forall|i: int| 0 <= i < r && i < BOARD_HEIGHT - 1 ==> #[trigger] s@[first + 11 * i + 10] == '\n',
            decreases BOARD_HEIGHT - r,
        {
            let mut c: usize = 0;
            while c < BOARD_WIDTH
                invariant
                    r < BOARD_HEIGHT,
                    c <= BOARD_WIDTH,
                    len == s@.len(),
                    first == skip_blank(s@, 0),
                    first + BOARD_TEXT_LEN <= len,
                    forall|i: int, j: int|
                        0 <= i < r && 0 <= j < BOARD_WIDTH ==> {
                            let ch = #[trigger] s@[first + 11 * i + j];
                            (ch == '#' || ch == '.') && data[i][j]@ == (if ch == '#' {
                                1u8
                            } else {
                                0u8
                            })
                        },
                    forall|j: int|
                        0 <= j < c ==> {
                            let ch = #[trigger] s@[first + 11 * r + j];
                            (ch == '#' || ch == '.') && data[r as int][j]@ == (if ch == '#' {
                                1u8
                            } else {
                                0u8
                            })
                        },
                decreases BOARD_WIDTH - c,
            {
                let ch = s.get_char(first + 11 * r + c);
                if ch == '#' {
                    data[r][c] = Cell(1);
                } else if ch == '.' {
                    data[r][c] = Cell(0);
                } else {
                    assert(on_board(r as int, c as int));
                    assert(s@[first + 11 * r + c] != '#' && s@[first + 11 * r + c] != '.');
                    return Err(Error::InvalidBoardText);
                }
                c += 1;
            }
            if r < BOARD_HEIGHT - 1 {
                if s.get_char(first + 11 * r + 10) != '\n' {
                    assert(s@[first + 11 * r + 10] != '\n');
                    return Err(Error::InvalidBoardText);
                }
            }
            r += 1;
        }
        let mut i: usize = first + BOARD_TEXT_LEN;
        while i < len
            invariant
                first + BOARD_TEXT_LEN <= i <= len,
                len == s@.len(),
                first == skip_blank(s@, 0),
                forall|k: int| first + BOARD_TEXT_LEN <= k < i ==> is_blank(#[trigger] s@[k]),
            decreases len - i,
        {
            if !Self::blank(s.get_char(i)) {
                assert(!is_blank(s@[i as int]));
                return Err(Error::InvalidBoardText);
            }
            i += 1;
        }
        Ok(Board::from_data(data))
    }

    /// Whether the character is blank.
    fn blank(c: char) -> (b: bool)
        ensures
            b == is_blank(c),
    {
        c == ' ' || c == '\n' || c == '\t' || c == '\r'
    }

    /// Writes the board as text: a line feed, then row after row, each
    /// followed by a line feed.
    pub fn to_text(&self) -> (text: String)
        ensures
            text@ == board_text(self),
    {
        let mut text = String::from_str("\n");
        proof {
            reveal_strlit("\n");
            reveal_strlit("#");
            reveal_strlit(".");
        }
        let mut r: usize = 0;
        while r < BOARD_HEIGHT
            invariant
                r <= BOARD_HEIGHT,
                "\n"@ == seq!['\n'],
                "#"@ == seq!['#'],
                "."@ == seq!['.'],
                text@.len() == 1 + 11 * r,
                forall|i: int| 0 <= i < text@.len() ==> text@[i] == board_text(self)[i],
            decreases BOARD_HEIGHT - r,
        {
            let mut c: usize = 0;
            while c < BOARD_WIDTH
                invariant
                    r < BOARD_HEIGHT,
                    c <= BOARD_WIDTH,
                    "\n"@ == seq!['\n'],
                    "#"@ == seq!['#'],
                    "."@ == seq!['.'],
                    text@.len() == 1 + 11 * r + c,
                    forall|i: int| 0 <= i < text@.len() ==> text@[i] == board_text(self)[i],
                decreases BOARD_WIDTH - c,
            {
                if self.data[r][c].filled() {
                    text.append("#");
                } else {
                    text.append(".");
                }
                assert(self.filled_at(r as int, c as int) == self.cell_at(r as int, c as int).is_filled());
                c += 1;
            }
            text.append("\n");
            r += 1;
        }
        assert(text@ =~= board_text(self));
        text
    }
}

impl Board {
    /// Boards with the same cells and the same heights are the same
    /// board.
    #[verifier::rlimit(40)]
    pub proof fn lemma_same_board(&self, other: &Board)
        requires
            self.same_cells(other),
            forall|c: int| 0 <= c < BOARD_WIDTH ==> self.spec_height(c) == other.spec_height(c),
        ensures
            *self == *other,
    {
        assert forall|r: int| 0 <= r < BOARD_HEIGHT implies self.data[r] == other.data[r] by {
            assert forall|c: int| 0 <= c < BOARD_WIDTH implies self.data[r][c] == other.data[r][c] by {
                assert(on_board(r, c));
                assert(self.cell_at(r, c) == other.cell_at(r, c));
            }
            assert(self.data[r] =~= other.data[r]);
        }
        assert(self.data =~= other.data);
        assert forall|c: int| 0 <= c < BOARD_WIDTH implies self.heights[c] == other.heights[c] by {
            assert(self.spec_height(c) == other.spec_height(c));
        }
        assert(self.heights =~= other.heights);
    }

    /// Boards with true heights and the same cells are the same board.
    #[verifier::rlimit(40)]
    pub proof fn lemma_same_cells_same_board(&self, other: &Board)
        requires
            self.wf(),
            other.wf(),
            self.same_cells(other),
        ensures
            *self == *other,
    {
        assert forall|c: int| 0 <= c < BOARD_WIDTH implies self.spec_height(c) == other.spec_height(
            c,
        ) by {
            let h = self.spec_height(c);
            assert(self.is_height_of(c, h));
            assert(other.is_height_of(c, other.spec_height(c)));
            assert forall|r: int| 0 <= r < BOARD_HEIGHT - h implies !other.filled_at(r, c) by {
                assert(!self.filled_at(r, c));
                assert(self.cell_at(r, c) == other.cell_at(r, c));
            }
            if h > 0 {
                assert(self.filled_at(BOARD_HEIGHT - h, c));
                assert(self.cell_at(BOARD_HEIGHT - h, c) == other.cell_at(BOARD_HEIGHT - h, c));
            }
            assert(other.is_height_of(c, h));
            other.lemma_height_unique(c, h, other.spec_height(c));
        }
        self.lemma_same_board(other);
    }

    /// There is one board only that a pattern written on this board
    /// gives.
    #[verifier::rlimit(40)]
    pub proof fn lemma_imprinted_unique(
        &self,
        one: &Board,
        two: &Board,
        pattern: Pattern,
        row: int,
        col: int,
        cell: Cell,
    )
        requires
            self.imprinted(one, pattern, row, col, cell),
            self.imprinted(two, pattern, row, col, cell),
        ensures
            *one == *two,
    {
        assert forall|r: int, c: int| on_board(r, c) implies #[trigger] one.cell_at(r, c)
            == two.cell_at(r, c) by {
            assert(two.cell_at(r, c) == if pattern.at(r - row, c - col) {
                cell
            } else {
                self.cell_at(r, c)
            });
        }
        assert forall|c: int| 0 <= c < BOARD_WIDTH implies one.spec_height(c) == two.spec_height(
            c,
        ) by {
            let h1 = one.spec_height(c);
            let h2 = two.spec_height(c);
            assert(self.imprinted_height(pattern, row, col, c, h1));
            assert(self.imprinted_height(pattern, row, col, c, h2));
            if h1 < h2 {
                let r = choose|r: int|
                    0 <= r < BOARD_HEIGHT && #[trigger] pattern.at(r - row, c - col) && h2
                        == BOARD_HEIGHT - r;
                assert(h1 >= BOARD_HEIGHT - r);
            } else if h2 < h1 {
                let r = choose|r: int|
                    0 <= r < BOARD_HEIGHT && #[trigger] pattern.at(r - row, c - col) && h1
                        == BOARD_HEIGHT - r;
                assert(h2 >= BOARD_HEIGHT - r);
            }
        }
        one.lemma_same_board(two);
    }

    /// Every row below the rows that a clearing empties is the place to
    /// which a row that is not full sinks.
    pub proof fn lemma_sink_onto(&self, from: int, target: int)
        requires
            0 <= from <= BOARD_HEIGHT,
            from + self.full_count(from, BOARD_HEIGHT as int) <= target < BOARD_HEIGHT,
        ensures
            exists|r: int| from <= r < BOARD_HEIGHT && !self.row_full(r) && self.sink_row(r) == target,
        decreases BOARD_HEIGHT - from,
    {
        if from < BOARD_HEIGHT {
            if !self.row_full(from) && self.sink_row(from) == target {
            } else {
                self.lemma_sink_onto(from + 1, target);
            }
        }
    }

    /// There is one board and one list of rows only that clearing this
    /// board gives.
    #[verifier::rlimit(40)]
    pub proof fn lemma_cleared_unique(
        &self,
        one: &Board,
        rows_one: Seq<usize>,
        two: &Board,
        rows_two: Seq<usize>,
    )
        requires
            self.cleared_to(one, rows_one),
            self.cleared_to(two, rows_two),
        ensures
            *one == *two,
            rows_one == rows_two,
    {
        let k = self.full_count(0, BOARD_HEIGHT as int);
        self.lemma_full_count_bounds(0, BOARD_HEIGHT as int);
        assert forall|r: int, c: int| on_board(r, c) implies #[trigger] one.cell_at(r, c)
            == two.cell_at(r, c) by {
            if r < k {
                assert(one.cell_at(r, c)@ == 0 && two.cell_at(r, c)@ == 0);
                Cell::lemma_view_injective(one.cell_at(r, c), two.cell_at(r, c));
            } else {
                self.lemma_sink_onto(0, r);
                let q = choose|q: int|
                    0 <= q < BOARD_HEIGHT && !self.row_full(q) && self.sink_row(q) == r;
                assert(on_board(q, c));
                assert(one.cell_at(self.sink_row(q), c) == self.cell_at(q, c));
                assert(two.cell_at(self.sink_row(q), c) == self.cell_at(q, c));
            }
        }
        one.lemma_same_cells_same_board(two);
        assert forall|x: usize| #[trigger] holds(rows_one, x) <==> holds(rows_two, x) by {
            if holds(rows_one, x) {
                let i = choose|j: int| 0 <= j < rows_one.len() && rows_one[j] == x;
                assert(self.row_full(rows_one[i] as int));
                let j = choose|j: int| 0 <= j < rows_two.len() && rows_two[j] == x as int;
                assert(rows_two[j] == x);
            }
            if holds(rows_two, x) {
                let i = choose|j: int| 0 <= j < rows_two.len() && rows_two[j] == x;
                assert(self.row_full(rows_two[i] as int));
                let j = choose|j: int| 0 <= j < rows_one.len() && rows_one[j] == x as int;
                assert(rows_one[j] == x);
            }
        }
        lemma_falling_same(rows_one, rows_two);
    }
}

/// Whether the list holds the number.
pub open spec fn holds(list: Seq<usize>, x: usize) -> bool {
    exists|j: int| 0 <= j < list.len() && list[j] == x
}

/// Whether each number of the list is less than the one before it.
pub open spec fn is_falling(list: Seq<usize>) -> bool {
    forall|i: int, j: int| 0 <= i < j < list.len() ==> list[i] > list[j]
}

/// Strictly falling lists with the same members are the same list.
#[verifier::rlimit(40)]
pub proof fn lemma_falling_same(one: Seq<usize>, two: Seq<usize>)
    requires
        is_falling(one),
        is_falling(two),
        forall|x: usize| #[trigger] holds(one, x) <==> holds(two, x),
    ensures
        one == two,
    decreases one.len(),
{
    if one.len() == 0 {
        if two.len() > 0 {
            assert(holds(two, two[0]));
            assert(holds(one, two[0]));
        }
        assert(one =~= two);
    } else if two.len() == 0 {
        assert(holds(one, one[0]));
        assert(holds(two, one[0]));
    } else {
        let x = one.last();
        let y = two.last();
        assert(holds(one, x));
        assert(holds(two, x));
        assert(holds(two, y));
        assert(holds(one, y));
        let a = choose|j: int| 0 <= j < two.len() && two[j] == x;
        let b = choose|j: int| 0 <= j < one.len() && one[j] == y;
        assert(x == y) by {
            if a < two.len() - 1 {
                assert(two[a] > two[two.len() - 1]);
            }
            if b < one.len() - 1 {
                assert(one[b] > one[one.len() - 1]);
            }
        }
        let front_one = one.drop_last();
        let front_two = two.drop_last();
        assert forall|z: usize| #[trigger] holds(front_one, z) <==> holds(front_two, z) by {
            if holds(front_one, z) {
                let i = choose|j: int| 0 <= j < front_one.len() && front_one[j] == z;
                assert(one[i] == z);
                assert(one[i] > one[one.len() - 1]);
                assert(holds(one, z));
                assert(holds(two, z));
                let j = choose|j: int| 0 <= j < two.len() && two[j] == z;
                assert(j < two.len() - 1);
                assert(front_two[j] == z);
            }
            if holds(front_two, z) {
                let i = choose|j: int| 0 <= j < front_two.len() && front_two[j] == z;
                assert(two[i] == z);
                assert(two[i] > two[two.len() - 1]);
                assert(holds(two, z));
                assert(holds(one, z));
                let j = choose|j: int| 0 <= j < one.len() && one[j] == z;
                assert(j < one.len() - 1);
                assert(front_one[j] == z);
            }
        }
        assert(is_falling(front_one)) by {
            assert forall|i: int, j: int| 0 <= i < j < front_one.len() implies front_one[i]
                > front_one[j] by {
                assert(front_one[i] == one[i] && front_one[j] == one[j]);
            }
        }
        assert(is_falling(front_two)) by {
            assert forall|i: int, j: int| 0 <= i < j < front_two.len() implies front_two[i]
                > front_two[j] by {
                assert(front_two[i] == two[i] && front_two[j] == two[j]);
            }
        }
        lemma_falling_same(front_one, front_two);
        assert(one =~= front_one.push(x));
        assert(two =~= front_two.push(y));
    }
}

impl Default for Board {
    /// The empty board.
    fn default() -> (board: Board)
        ensures
            board.wf(),
            forall|r: int, c: int| on_board(r, c) ==> (#[trigger] board.cell_at(r, c))@ == 0,
            forall|c: int| 0 <= c < BOARD_WIDTH ==> board.spec_height(c) == 0,
    {
        Board { data: [[Cell(0); 10]; 20], heights: [0; 10] }
    }
}

} // verus!
