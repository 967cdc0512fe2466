use crate::board::on_board;
use crate::moves::{Move, Position};
use crate::piece::{rotation_count, spawn_position, Piece, N_PIECES};
use crate::rng::gen_random_piece;
use crate::search::{fits, is_descent, lands, lemma_fits_bounds};
use crate::state::{State, Stats};
use vstd::prelude::*;

verus! {

/// A game that is played by hand: a state and the piece that is on its
/// way, if there is one.
pub struct Game {
    state: State,
    current_move: Option<Move>,
}

impl Game {
    /// The state of the game.
    pub closed spec fn spec_state(&self) -> State {
        self.state
    }

    /// The piece that is on its way, where it is.
    pub closed spec fn spec_move(&self) -> Option<Move> {
        self.current_move
    }

    /// The state is well formed, and the piece that is on its way fits
    /// where it is.
    pub open spec fn wf(&self) -> bool {
        &&& self.spec_state().wf()
        &&& self.spec_move() matches Some(m) ==> fits(&self.spec_state().spec_board(), m.piece@, m.pos)
    }

    /// Whether `after` is this game with the piece on its way moved to
    /// `pos`, if it fits there, and else unchanged. Without a piece on
    /// its way nothing changes.
    pub open spec fn tried(&self, after: &Game, pos: spec_fn(Position) -> Position) -> bool {
        &&& after.spec_state() == self.spec_state()
        &&& after.spec_move() == match self.spec_move() {
            Some(m) => if fits(&self.spec_state().spec_board(), m.piece@, pos(m.pos)) {
                Some(Move { piece: m.piece, pos: pos(m.pos) })
            } else {
                Some(m)
            },
            None => None,
        }
    }

    /// Whether the game is fresh: the board is empty, nothing is counted,
    /// and no piece is on its way.
    pub open spec fn fresh(&self) -> bool {
        &&& self.spec_move() is None
        &&& self.spec_state().has_headroom()
        &&& !self.spec_state().spec_game_over()
        &&& self.spec_state().spec_delta() is None
        &&& self.spec_state().spec_stats() == (Stats {
            steps: 0,
            lines: 0,
            score: 0,
            level: 0,
            tetrises: 0,
        })
        &&& forall|r: int, c: int| on_board(r, c) ==> !self.spec_state().spec_board().filled_at(r, c)
    }

    /// Whether `after` is this game one tick later, with `piece` as the
    /// next to spawn, and `running` what the tick reports: the piece on
    /// its way has sunk one row, or is placed where it cannot sink;
    /// without a piece on its way the given piece has spawned, or, where
    /// it does not fit, the game is over.
    pub open spec fn ticked(&self, after: &Game, piece: Piece, running: bool) -> bool {
        match self.spec_move() {
            Some(m) => {
                &&& running
                &&& if lands(&self.spec_state().spec_board(), m.piece@, m.pos) {
                    &&& after.spec_move() is None
                    &&& after.spec_state().is_future_of(&self.spec_state(), m)
                } else {
                    &&& after.spec_state() == self.spec_state()
                    &&& after.spec_move() matches Some(n)
                    &&& n.piece == m.piece
                    &&& is_descent(m.pos, n.pos)
                }
            },
            None => {
                &&& running == fits(&self.spec_state().spec_board(), piece@, spawn_position(piece@))
                &&& running ==> after.spec_state() == self.spec_state() && after.spec_move() == Some(
                    Move { piece, pos: spawn_position(piece@) },
                )
                &&& !running ==> after.spec_move() is None && after.spec_state().spec_game_over()
                    && after.spec_state().spec_board() == self.spec_state().spec_board()
                    && after.spec_state().spec_stats() == self.spec_state().spec_stats()
                    && after.spec_state().spec_delta() == self.spec_state().spec_delta()
            },
        }
    }

    /// Whether `after` is this game after the piece on its way has sunk
    /// as far as it can and one tick more, with `piece` as the next to
    /// spawn: the piece on its way is placed at the landing straight
    /// below it; without one the tick is all that happens.
    pub open spec fn dropped(&self, after: &Game, piece: Piece, running: bool) -> bool {
        match self.spec_move() {
            Some(m) => {
                &&& running
                &&& after.spec_move() is None
                &&& exists|landing: Move|
                    {
                        &&& landing.piece == m.piece
                        &&& landing.pos.rot == m.pos.rot
                        &&& landing.pos.col == m.pos.col
                        &&& landing.pos.row >= m.pos.row
                        &&& forall|row: int|
                            m.pos.row <= row <= landing.pos.row ==> #[trigger] fits(
                                &self.spec_state().spec_board(),
                                m.piece@,
                                Position { rot: m.pos.rot, row: row as isize, col: m.pos.col },
                            )
                        &&& lands(&self.spec_state().spec_board(), m.piece@, landing.pos)
                        &&& #[trigger] after.spec_state().is_future_of(&self.spec_state(), landing)
                    }
            },
            None => self.ticked(after, piece, running),
        }
    }

    /// A fresh game on the empty board, with no piece on its way.
    pub fn new() -> (game: Game)
        ensures
            game.wf(),
            game.fresh(),
    {
        Game { state: State::default(), current_move: None }
    }

    /// Begins a fresh game on the empty board.
    pub fn reset(&mut self)
        ensures
            final(self).wf(),
            final(self).fresh(),
    {
        self.state = State::default();
        self.current_move = None;
    }

    /// The state of the game.
    pub fn state(&self) -> (state: &State)
        ensures
            *state == self.spec_state(),
    {
        &self.state
    }

    /// The piece that is on its way, where it is.
    pub fn current_move(&self) -> (m: Option<Move>)
        ensures
            m == self.spec_move(),
    {
        self.current_move
    }

    /// One tick with the given piece as the next to spawn: the piece on
    /// its way sinks one row, or is placed where it cannot sink; without
    /// a piece on its way the given piece spawns, and where it does not
    /// fit the game is over.
    pub fn step_with(&mut self, piece: Piece) -> (running: bool)
        requires
            old(self).wf(),
            old(self).spec_state().has_headroom(),
        ensures
            final(self).wf(),
            old(self).ticked(final(self), piece, running),
    {
        match self.current_move {
            Some(current) => {
                let lower = current.drop(self.state.board());
                if lower.is_none() {
                    let next = self.state.future(current);
                    self.state = next;
                }
                self.current_move = lower;
                true
            },
            None => {
                let start = piece.into_start_move();
                if start.is_valid(self.state.board()) {
                    self.current_move = Some(start);
                    true
                } else {
                    self.state.set_game_over();
                    false
                }
            },
        }
    }

    /// One tick; see `step_with`. The piece that spawns is drawn.
    pub fn step(&mut self) -> (running: bool)
        requires
            old(self).wf(),
            old(self).spec_state().has_headroom(),
        ensures
            final(self).wf(),
            exists|piece: Piece|
                0 <= piece@ < N_PIECES && #[trigger] old(self).ticked(final(self), piece, running),
    {
        let previous = match self.state.delta() {
            Some(d) => Some(d.mv.piece.index()),
            None => None,
        };
        let piece = gen_random_piece(previous);
        self.step_with(piece)
    }

    /// Moves the piece on its way to the given position if it fits there.
    fn try_move(&mut self, pos: Position)
        requires
            old(self).wf(),
        ensures
            final(self).wf(),
            old(self).tried(final(self), |p: Position| pos),
    {
        match self.current_move {
            Some(current) => {
                let index = current.piece.index();
                if pos.rot < current.piece.num_rotations() {
                    let next = Move { piece: current.piece, pos };
                    if next.is_valid(self.state.board()) {
                        self.current_move = Some(next);
                    }
                }
            },
            None => {},
        }
    }

    /// Moves the piece on its way one column to the left, if it fits
    /// there.
    pub fn move_left(&mut self)
        requires
            old(self).wf(),
        ensures
            final(self).wf(),
            old(self).tried(
                final(self),
                |p: Position| Position { rot: p.rot, row: p.row, col: (p.col - 1) as isize },
            ),
    {
        match self.current_move {
            Some(m) => {
                let index = m.piece.index();
                proof {
                    lemma_fits_bounds(&self.state.spec_board(), m.piece@, m.pos);
                }
                self.try_move(Position { rot: m.pos.rot, row: m.pos.row, col: m.pos.col - 1 });
            },
            None => {},
        }
    }

    /// Moves the piece on its way one column to the right, if it fits
    /// there.
    pub fn move_right(&mut self)
        requires
            old(self).wf(),
        ensures
            final(self).wf(),
            old(self).tried(
                final(self),
                |p: Position| Position { rot: p.rot, row: p.row, col: (p.col + 1) as isize },
            ),
    {
        match self.current_move {
            Some(m) => {
                let index = m.piece.index();
                proof {
                    lemma_fits_bounds(&self.state.spec_board(), m.piece@, m.pos);
                }
                self.try_move(Position { rot: m.pos.rot, row: m.pos.row, col: m.pos.col + 1 });
            },
            None => {},
        }
    }

    /// Moves the piece on its way one row down, if it fits there.
    pub fn soft_drop(&mut self)
        requires
            old(self).wf(),
        ensures
            final(self).wf(),
            old(self).tried(
                final(self),
                |p: Position| Position { rot: p.rot, row: (p.row + 1) as isize, col: p.col },
            ),
    {
        match self.current_move {
            Some(m) => {
                let index = m.piece.index();
                proof {
                    lemma_fits_bounds(&self.state.spec_board(), m.piece@, m.pos);
                }
                self.try_move(Position { rot: m.pos.rot, row: m.pos.row + 1, col: m.pos.col });
            },
            None => {},
        }
    }

    /// Turns the piece on its way one rotation on, if it fits so.
    pub fn rotate(&mut self)
        requires
            old(self).wf(),
        ensures
            final(self).wf(),
            final(self).spec_state() == old(self).spec_state(),
            match old(self).spec_move() {
                Some(m) => {
                    let turned = Position {
                        rot: ((m.pos.rot + 1) % rotation_count(m.piece@)) as usize,
                        row: m.pos.row,
                        col: m.pos.col,
                    };
                    final(self).spec_move() == if fits(
                        &old(self).spec_state().spec_board(),
                        m.piece@,
                        turned,
                    ) {
                        Some(Move { piece: m.piece, pos: turned })
                    } else {
                        Some(m)
                    }
                },
                None => final(self).spec_move() is None,
            },
    {
        match self.current_move {
            Some(m) => {
                let n = m.piece.num_rotations();
                self.try_move(Position { rot: (m.pos.rot + 1) % n, row: m.pos.row, col: m.pos.col });
            },
            None => {},
        }
    }

    /// Lets the piece on its way sink as far as it can, and then makes
    /// one tick with the given piece as the next to spawn: the piece on
    /// its way is placed, or, without one, the given piece spawns.
    #[verifier::rlimit(40)]
    pub fn hard_drop_with(&mut self, piece: Piece) -> (running: bool)
        requires
            old(self).wf(),
            old(self).spec_state().has_headroom(),
        ensures
            final(self).wf(),
            old(self).dropped(final(self), piece, running),
    {
        loop
            invariant
                self.wf(),
                self.spec_state() == old(self).spec_state(),
                old(self).spec_move() is Some == self.spec_move() is Some,
                (old(self).spec_move(), self.spec_move()) matches (Some(m), Some(n)) ==> n.piece
                    == m.piece && n.pos.rot == m.pos.rot && n.pos.col == m.pos.col && n.pos.row
                    >= m.pos.row && forall|row: int|
                    m.pos.row <= row <= n.pos.row ==> #[trigger] fits(
                        &self.spec_state().spec_board(),
                        m.piece@,
                        Position { rot: m.pos.rot, row: row as isize, col: m.pos.col },
                    ),
            ensures
                self.wf(),
                self.spec_state() == old(self).spec_state(),
                old(self).spec_move() is Some == self.spec_move() is Some,
                (old(self).spec_move(), self.spec_move()) matches (Some(m), Some(n)) ==> n.piece
                    == m.piece && n.pos.rot == m.pos.rot && n.pos.col == m.pos.col && n.pos.row
                    >= m.pos.row && lands(&self.spec_state().spec_board(), n.piece@, n.pos)
                    && forall|row: int|
                    m.pos.row <= row <= n.pos.row ==> #[trigger] fits(
                        &self.spec_state().spec_board(),
                        m.piece@,
                        Position { rot: m.pos.rot, row: row as isize, col: m.pos.col },
                    ),
            decreases
                    match self.spec_move() {
                        Some(n) => 20 - n.pos.row,
                        None => 0,
                    },
        {
            match self.current_move {
                Some(current) => {
                    let index = current.piece.index();
                    proof {
                        lemma_fits_bounds(&self.state.spec_board(), current.piece@, current.pos);
                    }
                    match current.drop(self.state.board()) {
                        Some(lower) => {
                            self.current_move = Some(lower);
                        },
                        None => {
                            break ;
                        },
                    }
                },
                None => {
                    break ;
                },
            }
        }
        let ghost landing = self.spec_move();
        let running = self.step_with(piece);
        proof {
            if let Some(m) = old(self).spec_move() {
                let l = landing->0;
                assert(self.spec_state().is_future_of(&old(self).spec_state(), l));
            }
        }
        running
    }

    /// Lets the piece on its way sink as far as it can and places it; see
    /// `hard_drop_with`. The piece that spawns without one is drawn.
    pub fn hard_drop(&mut self)
        requires
            old(self).wf(),
            old(self).spec_state().has_headroom(),
        ensures
            final(self).wf(),
            exists|piece: Piece, running: bool|
                0 <= piece@ < N_PIECES && #[trigger] old(self).dropped(final(self), piece, running),
    {
        let previous = match self.state.delta() {
            Some(d) => Some(d.mv.piece.index()),
            None => None,
        };
        let piece = gen_random_piece(previous);
        let running = self.hard_drop_with(piece);
        assert(old(self).dropped(self, piece, running));
    }
}

impl Default for Game {
    fn default() -> (game: Game)
        ensures
            game.wf(),
            game.fresh(),
    {
        Game::new()
    }
}

} // verus!
