use crate::board::{on_board, Board, BOARD_HEIGHT, BOARD_WIDTH};
use crate::moves::Move;
use crate::piece::{pattern_size, row_cells, lemma_row_cells_bounds};
use vstd::prelude::*;

verus! {

/// What a game has counted so far.
#[derive(Debug, Copy, Clone, PartialEq, Eq, Structural)]
pub struct Stats {
    pub steps: u64,
    pub lines: u64,
    pub score: u64,
    pub level: u64,
    pub tetrises: u64,
}

impl Default for Stats {
    fn default() -> (stats: Stats)
        ensures
            stats == (Stats { steps: 0, lines: 0, score: 0, level: 0, tetrises: 0 }),
    {
        Stats { steps: 0, lines: 0, score: 0, level: 0, tetrises: 0 }
    }
}

/// What the last placement did: the move, the rows it cleared, bottom row
/// first and numbered as before the clearing, and how many cells of the
/// placed piece lay in those rows.
#[derive(Debug, Clone)]
pub struct Delta {
    pub mv: Move,
    pub eroded: usize,
    pub cleared: Vec<usize>,
}

/// A board with the statistics of the game played on it.
#[derive(Debug, Clone)]
pub struct State {
    board: Board,
    stats: Stats,
    game_over: bool,
    delta: Option<Delta>,
}

/// Base points for clearing `k` rows with one placement.
pub open spec fn points(k: int) -> int {
    if k == 1 {
        40
    } else if k == 2 {
        100
    } else if k == 3 {
        300
    } else if k == 4 {
        1200
    } else {
        0
    }
}

/// Number of lines per level.
pub const LINES_PER_LEVEL: u64 = 10;

/// Number of cells of the moved piece that lie in the given rows of the
/// board.
pub open spec fn eroded_of(m: Move, cleared: Seq<usize>) -> int
    decreases cleared.len(),
{
    if cleared.len() == 0 {
        0
    } else {
        let r = cleared.last() as int - m.pos.row;
        eroded_of(m, cleared.drop_last()) + if 0 <= r < pattern_size(m.piece@) {
            row_cells(m.piece@, m.pos.rot as int, r, pattern_size(m.piece@))
        } else {
            0
        }
    }
}

/// A list of rows in which a piece lies holds at most four cells of it
/// for each row.
pub proof fn lemma_eroded_bounds(m: Move, cleared: Seq<usize>)
    ensures
        0 <= eroded_of(m, cleared) <= 4 * cleared.len(),
    decreases cleared.len(),
{
    if cleared.len() > 0 {
        lemma_eroded_bounds(m, cleared.drop_last());
        lemma_row_cells_bounds(
            m.piece@,
            m.pos.rot as int,
            cleared.last() as int - m.pos.row,
            pattern_size(m.piece@),
        );
    }
}

/// A strictly falling list of numbers from `lo..hi` is no longer than the
/// range.
pub proof fn lemma_falling_length(rows: Seq<usize>, lo: int, hi: int)
    requires
        forall|i: int| 0 <= i < rows.len() ==> lo <= #[trigger] rows[i] < hi,
        forall|i: int, j: int| 0 <= i < j < rows.len() ==> rows[i] > rows[j],
    ensures
        rows.len() <= if hi >= lo { hi - lo } else { 0 },
    decreases rows.len(),
{
    if rows.len() > 0 {
        let rest = rows.drop_last();
        let last = rows.last() as int;
        assert forall|i: int| 0 <= i < rest.len() implies last + 1 <= #[trigger] rest[i] < hi by {
            assert(rest[i] == rows[i]);
            assert(rows[i] > rows[rows.len() - 1]);
        }
        assert forall|i: int, j: int| 0 <= i < j < rest.len() implies rest[i] > rest[j] by {
            assert(rest[i] == rows[i] && rest[j] == rows[j]);
        }
        lemma_falling_length(rest, last + 1, hi);
        assert(lo <= rows[rows.len() - 1]);
    }
}

impl State {
    /// The board of the state.
    pub closed spec fn spec_board(&self) -> Board {
        self.board
    }

    /// The statistics of the state.
    pub closed spec fn spec_stats(&self) -> Stats {
        self.stats
    }

    /// Whether the game is over.
    pub closed spec fn spec_game_over(&self) -> bool {
        self.game_over
    }

    /// What the last placement did, if there was one.
    pub closed spec fn spec_delta(&self) -> Option<Delta> {
        self.delta
    }

    /// The heights of the board are true, no row of it is full, the level
    /// is one for every ten lines, and a placement has cleared four lines
    /// at most.
    pub open spec fn wf(&self) -> bool {
        &&& self.spec_board().wf()
        &&& forall|r: int| 0 <= r < BOARD_HEIGHT ==> !self.spec_board().row_full(r)
        &&& self.spec_stats().level == self.spec_stats().lines / 10
        &&& self.spec_stats().tetrises <= self.spec_stats().steps
        &&& self.spec_stats().lines <= 4 * self.spec_stats().steps
    }

    /// The counters can take one more placement without overflow.
    pub open spec fn has_headroom(&self) -> bool {
        &&& self.spec_stats().steps < u64::MAX
        &&& self.spec_stats().lines + 4 <= u64::MAX
        &&& self.spec_stats().tetrises < u64::MAX
        &&& self.spec_stats().score + 1200 * (self.spec_stats().level + 1) <= u64::MAX
    }

    /// A fresh game on the given board.
    pub fn new(board: Board) -> (state: State)
        ensures
            state.spec_board() == board,
            state.spec_stats() == (Stats { steps: 0, lines: 0, score: 0, level: 0, tetrises: 0 }),
            !state.spec_game_over(),
            state.spec_delta() is None,
    {
        State { board, stats: Stats::default(), game_over: false, delta: None }
    }

    /// The board of the state.
    pub fn board(&self) -> (board: &Board)
        ensures
            *board == self.spec_board(),
    {
        &self.board
    }

    /// What the game has counted so far.
    pub fn stats(&self) -> (stats: Stats)
        ensures
            stats == self.spec_stats(),
    {
        self.stats
    }

    /// Whether the game is over.
    pub fn game_over(&self) -> (over: bool)
        ensures
            over == self.spec_game_over(),
    {
        self.game_over
    }

    /// Ends the game; the board and the statistics stay.
    pub fn set_game_over(&mut self)
        ensures
            final(self).spec_game_over(),
            final(self).spec_board() == old(self).spec_board(),
            final(self).spec_stats() == old(self).spec_stats(),
            final(self).spec_delta() == old(self).spec_delta(),
    {
        self.game_over = true;
    }

    /// What the last placement did, if there was one.
    pub fn delta(&self) -> (delta: Option<&Delta>)
        ensures
            delta is Some == self.spec_delta() is Some,
            delta matches Some(d) ==> self.spec_delta() == Some(*d),
    {
        self.delta.as_ref()
    }

    /// The state with the given record of a last placement.
    pub fn test_delta(self, delta: Delta) -> (state: State)
        ensures
            state.spec_delta() == Some(delta),
            state.spec_board() == self.spec_board(),
            state.spec_stats() == self.spec_stats(),
            state.spec_game_over() == self.spec_game_over(),
    {
        let mut state = self;
        state.delta = Some(delta);
        state
    }

    /// Whether the counters can take one more placement without overflow.
    pub fn can_advance(&self) -> (b: bool)
        ensures
            b == self.has_headroom(),
    {
        let room: u128 = self.stats.score as u128 + 1200u128 * (self.stats.level as u128 + 1);
        self.stats.steps < u64::MAX && self.stats.lines <= u64::MAX - 4 && self.stats.tetrises
            < u64::MAX && room <= u64::MAX as u128
    }

    /// Counts the cells of the moved piece that lie in the given rows.
    fn count_eroded(m: Move, cleared: &Vec<usize>) -> (eroded: usize)
        requires
            m.wf(),
            cleared.len() <= BOARD_HEIGHT,
        ensures
            eroded == eroded_of(m, cleared@),
    {
        let pattern = m.pattern();
        let size = pattern.rows();
        let mut eroded: usize = 0;
        let mut i: usize = 0;
        while i < cleared.len()
            invariant
                i <= cleared.len() <= BOARD_HEIGHT,
                m.wf(),
                size == pattern_size(m.piece@),
                pattern.piece() == m.piece@,
                pattern.rot() == m.pos.rot,
                eroded == eroded_of(m, cleared@.take(i as int)),
                eroded <= 4 * i,
            decreases cleared.len() - i,
        {
            let r: i128 = cleared[i] as i128 - m.pos.row as i128;
            proof {
                assert(cleared@.take(i + 1).drop_last() == cleared@.take(i as int));
                assert(cleared@.take(i + 1).last() == cleared@[i as int]);
                lemma_eroded_bounds(m, cleared@.take(i + 1));
            }
            if 0 <= r && r < size as i128 {
                eroded += pattern.row_count(r as usize);
            }
            i += 1;
        }
        assert(cleared@.take(cleared.len() as int) == cleared@);
        eroded
    }

    /// Computes the state after the piece has come to rest at the move:
    /// the piece is written on the board, the full rows are cleared, and
    /// the statistics count the placement.
    #[verifier::rlimit(40)]
    pub fn future(&self, m: Move) -> (next: State)
        requires
            self.wf(),
            self.has_headroom(),
            m.wf(),
        ensures
            next.is_future_of(self, m),
            next.wf(),
            !next.spec_game_over(),
            next.spec_delta() is Some,
            next.placed_from(self, m),
            next.counted_from(self),
            next.spec_stats().lines >= self.spec_stats().lines,
            next.spec_stats().lines == self.spec_stats().lines <==> next.spec_delta()->0.cleared.len()
                == 0,
    {
        let mut board = self.board;
        board.imprint(m.piece.rotation(m.pos.rot), m.pos.row, m.pos.col, m.piece.cell());
        let ghost placed = board;
        let cleared_rows = board.clear_full();
        let cleared = cleared_rows.len();
        proof {
            assert forall|i: int| 0 <= i < cleared_rows.len() implies m.pos.row
                <= #[trigger] cleared_rows[i] < m.pos.row + 4 by {
                let r = cleared_rows[i] as int;
                assert(placed.row_full(r));
                assert(!self.board.row_full(r));
                let c = choose|c: int| 0 <= c < BOARD_WIDTH && !self.board.filled_at(r, c);
                assert(placed.filled_at(r, c));
                assert(on_board(r, c));
                assert(placed.cell_at(r, c) != self.board.cell_at(r, c));
            }
            lemma_falling_length(cleared_rows@, m.pos.row as int, m.pos.row + 4);
        }
        let eroded = Self::count_eroded(m, &cleared_rows);
        let new_lines = self.stats.lines + cleared as u64;
        let base: u64 = if cleared == 1 {
            40
        } else if cleared == 2 {
            100
        } else if cleared == 3 {
            300
        } else if cleared == 4 {
            1200
        } else {
            0
        };
        assert(base * (self.stats.level + 1) <= 1200 * (self.stats.level + 1)) by (nonlinear_arith)
            requires
                0 <= base <= 1200,
                0 <= self.stats.level,
        ;
        let next = State {
            board,
            stats: Stats {
                steps: self.stats.steps + 1,
                lines: new_lines,
                score: self.stats.score + base * (self.stats.level + 1),
                level: new_lines / LINES_PER_LEVEL,
                tetrises: self.stats.tetrises + if cleared == 4 { 1 } else { 0 },
            },
            game_over: false,
            delta: Some(Delta { mv: m, eroded, cleared: cleared_rows }),
        };
        proof {
            let d = next.spec_delta()->0;
            assert(self.spec_board().imprinted(
                &placed,
                m.piece.rotation_spec(m.pos.rot as int),
                m.pos.row as int,
                m.pos.col as int,
                m.piece.cell_spec(),
            ));
            assert(placed.cleared_to(&next.spec_board(), d.cleared@));
        }
        next
    }

    /// Whether this state holds the board of `before` after the piece of
    /// the move has been written on it and the full rows have been
    /// cleared, with the record of that placement.
    pub open spec fn placed_from(&self, before: &State, m: Move) -> bool {
        &&& self.spec_delta() matches Some(d)
        &&& d.mv == m
        &&& d.cleared.len() <= 4
        &&& d.eroded == eroded_of(m, d.cleared@)
        &&& exists|placed: Board|
            {
                &&& #[trigger] before.spec_board().imprinted(
                    &placed,
                    m.piece.rotation_spec(m.pos.rot as int),
                    m.pos.row as int,
                    m.pos.col as int,
                    m.piece.cell_spec(),
                )
                &&& placed.cleared_to(&self.spec_board(), d.cleared@)
            }
    }

    /// Whether this state is what comes of `before` when the piece of the
    /// move comes to rest: the piece is written on the board, the full
    /// rows are cleared, the statistics count the placement, and the game
    /// goes on.
    pub open spec fn is_future_of(&self, before: &State, m: Move) -> bool {
        &&& self.wf()
        &&& !self.spec_game_over()
        &&& self.placed_from(before, m)
        &&& self.counted_from(before)
    }

    /// A state has one future only at a move: the board, the statistics
    /// and the record of the placement are the same in all.
    #[verifier::rlimit(40)]
    pub proof fn lemma_future_unique(before: &State, m: Move, one: &State, two: &State)
        requires
            one.is_future_of(before, m),
            two.is_future_of(before, m),
        ensures
            one.spec_board() == two.spec_board(),
            one.spec_stats() == two.spec_stats(),
            one.spec_game_over() == two.spec_game_over(),
            one.spec_delta()->0.mv == two.spec_delta()->0.mv,
            one.spec_delta()->0.eroded == two.spec_delta()->0.eroded,
            one.spec_delta()->0.cleared@ == two.spec_delta()->0.cleared@,
    {
        let pattern = m.piece.rotation_spec(m.pos.rot as int);
        let cell = m.piece.cell_spec();
        let record_one = one.spec_delta()->0;
        let record_two = two.spec_delta()->0;
        let first = choose|placed: Board|
            {
                &&& #[trigger] before.spec_board().imprinted(
                    &placed,
                    pattern,
                    m.pos.row as int,
                    m.pos.col as int,
                    cell,
                )
                &&& placed.cleared_to(&one.spec_board(), record_one.cleared@)
            };
        let second = choose|placed: Board|
            {
                &&& #[trigger] before.spec_board().imprinted(
                    &placed,
                    pattern,
                    m.pos.row as int,
                    m.pos.col as int,
                    cell,
                )
                &&& placed.cleared_to(&two.spec_board(), record_two.cleared@)
            };
        before.spec_board().lemma_imprinted_unique(
            &first,
            &second,
            pattern,
            m.pos.row as int,
            m.pos.col as int,
            cell,
        );
        first.lemma_cleared_unique(&one.spec_board(), record_one.cleared@, &two.spec_board(), record_two.cleared@);
    }

    /// Whether the statistics of this state are those of `before` with one
    /// more placement, which cleared the rows that this state records.
    pub open spec fn counted_from(&self, before: &State) -> bool {
        &&& self.spec_delta() matches Some(d)
        &&& self.spec_stats().steps == before.spec_stats().steps + 1
        &&& self.spec_stats().lines == before.spec_stats().lines + d.cleared.len()
        &&& self.spec_stats().level == self.spec_stats().lines / 10
        &&& self.spec_stats().score == before.spec_stats().score + points(d.cleared.len() as int)
            * (before.spec_stats().level + 1)
        &&& self.spec_stats().tetrises == before.spec_stats().tetrises + if d.cleared.len() == 4 {
            1int
        } else {
            0int
        }
    }
}

impl Default for State {
    /// A fresh game on the empty board.
    fn default() -> (state: State)
        ensures
            state.wf(),
            state.has_headroom(),
            !state.spec_game_over(),
            state.spec_delta() is None,
            state.spec_stats() == (Stats { steps: 0, lines: 0, score: 0, level: 0, tetrises: 0 }),
            forall|r: int, c: int| on_board(r, c) ==> !state.spec_board().filled_at(r, c),
    {
        let state = State::new(Board::default());
        assert forall|r: int| 0 <= r < BOARD_HEIGHT implies !state.spec_board().row_full(r) by {
            assert(!state.spec_board().filled_at(r, 0));
        }
        state
    }
}

} // verus!
