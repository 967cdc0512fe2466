use crate::board::{Board, BOARD_HEIGHT, BOARD_WIDTH};
use crate::piece::{lemma_shape_not_empty, pattern_size, rotation_count, shape, Pattern, Piece};
use vstd::prelude::*;

verus! {

/// Where a piece is: its rotation and the place of the top left corner of
/// its matrix. Row and column may lie outside the board.
#[derive(Clone, Copy, Debug, PartialEq, Eq, Structural, Hash, PartialOrd, Ord)]
pub struct Position {
    pub rot: usize,
    pub row: isize,
    pub col: isize,
}

impl Default for Position {
    fn default() -> (pos: Position)
        ensures
            pos == (Position { rot: 0, row: 0, col: 0 }),
    {
        Position { rot: 0, row: 0, col: 0 }
    }
}

/// A piece at a position.
#[derive(Clone, Copy, Debug, PartialEq, Eq)]
pub struct Move {
    pub piece: Piece,
    pub pos: Position,
}

impl Move {
    /// The piece has the rotation that the position names.
    pub open spec fn wf(&self) -> bool {
        self.pos.rot < rotation_count(self.piece@)
    }

    /// The matrix of the piece in the rotation of the position.
    pub fn pattern(&self) -> (pattern: Pattern)
        requires
            self.wf(),
        ensures
            pattern == self.piece.rotation_spec(self.pos.rot as int),
            pattern.piece() == self.piece@,
            pattern.rot() == self.pos.rot,
    {
        self.piece.rotation(self.pos.rot)
    }

    /// Whether the move overlaps nothing on the board.
    pub fn is_valid(&self, board: &Board) -> (b: bool)
        requires
            self.wf(),
        ensures
            b == !board.overlaps_spec(*self),
    {
        !board.overlaps_move(*self)
    }

    /// The move one row lower, if the piece can go there.
    pub fn drop(self, board: &Board) -> (lower: Option<Move>)
        requires
            self.wf(),
        ensures
            lower is Some <==> !board.overlaps_at(
                self.piece@,
                self.pos.rot as int,
                self.pos.row + 1,
                self.pos.col as int,
            ),
            lower matches Some(m) ==> m.piece == self.piece && m.pos.rot == self.pos.rot
                && m.pos.row == self.pos.row + 1 && m.pos.col == self.pos.col,
    {
        let index = self.piece.index();
        if self.pos.row >= 20 {
            proof {
                lemma_shape_not_empty(self.piece@, self.pos.rot as int);
                let (r, c) = choose|r: int, c: int| shape(self.piece@, self.pos.rot as int, r, c);
                assert(shape(self.piece@, self.pos.rot as int, r, c) && board.blocked(
                    self.pos.row + 1 + r,
                    self.pos.col + c,
                ));
            }
            return None;
        }
        let lower = Move {
            piece: self.piece,
            pos: Position { rot: self.pos.rot, row: self.pos.row + 1, col: self.pos.col },
        };
        if board.overlaps_move(lower) {
            None
        } else {
            Some(lower)
        }
    }
}

/// The positions of all groups, one group after the other.
pub open spec fn concat_groups(groups: Seq<Seq<Position>>) -> Seq<Position>
    decreases groups.len(),
{
    if groups.len() == 0 {
        Seq::empty()
    } else {
        concat_groups(groups.drop_last()) + groups.last()
    }
}

/// Whether the groups are the runs of equal row of a walk: no group is
/// empty, a group holds one row only, and the next group begins in
/// another row.
pub open spec fn grouped_by_row(groups: Seq<Seq<Position>>) -> bool {
    &&& forall|g: int| 0 <= g < groups.len() ==> (#[trigger] groups[g]).len() > 0
    &&& forall|g: int, i: int|
        0 <= g < groups.len() && 0 <= i < groups[g].len() ==> (#[trigger] groups[g][i]).row
            == groups[g][0].row
    &&& forall|g: int|
        0 <= g < groups.len() - 1 ==> (#[trigger] groups[g + 1])[0].row != groups[g][0].row
}

/// The groups that the vectors hold.
pub open spec fn group_views(groups: Seq<Vec<Position>>) -> Seq<Seq<Position>> {
    Seq::new(groups.len(), |g: int| groups[g]@)
}

/// The way of a piece from where it spawns to where it lands: the
/// positions it passes, in groups of one game tick each. The positions of
/// a group lie in one row; with each new group the piece has sunk.
#[derive(Debug, PartialEq, Eq)]
pub struct Path {
    piece: Piece,
    positions: Vec<Vec<Position>>,
}

impl Path {
    #[verifier::type_invariant]
    spec fn inhabited(self) -> bool {
        &&& self.positions.len() > 0
        &&& forall|g: int| 0 <= g < self.positions.len() ==> (#[trigger] self.positions[g]).len() > 0
    }

    /// The piece that goes this way.
    pub closed spec fn spec_piece(&self) -> Piece {
        self.piece
    }

    /// The groups of positions, one for each tick.
    pub closed spec fn groups(&self) -> Seq<Seq<Position>> {
        group_views(self.positions@)
    }

    /// All positions of the way, first to last.
    pub open spec fn walk(&self) -> Seq<Position> {
        concat_groups(self.groups())
    }

    /// Builds the path from its positions in reverse order, last position
    /// first: the positions are put in order and split where the row
    /// changes.
    #[verifier::rlimit(40)]
    pub(crate) fn from_path_reverse(reversed_path: Vec<Position>, piece: Piece) -> (path: Path)
        requires
            reversed_path.len() > 0,
        ensures
            path.spec_piece() == piece,
            path.walk().len() == reversed_path.len(),
            forall|i: int|
                0 <= i < reversed_path.len() ==> #[trigger] path.walk()[i] == reversed_path[reversed_path.len()
                    - 1 - i],
            grouped_by_row(path.groups()),
    {
        let n = reversed_path.len();
        let mut moves_per_tick: Vec<Vec<Position>> = Vec::new();
        let mut current_tick: Vec<Position> = Vec::new();
        let mut current_row = reversed_path[n - 1].row;
        current_tick.push(reversed_path[n - 1]);
        let mut k: usize = n - 1;
        assert(concat_groups(group_views(moves_per_tick@)) + current_tick@ =~= seq![
            reversed_path[n - 1],
        ]);
        while k > 0
            invariant
                k < n,
                n == reversed_path.len(),
                current_tick.len() > 0,
                forall|i: int| 0 <= i < current_tick.len() ==> current_tick[i].row == current_row,
                grouped_by_row(group_views(moves_per_tick@)),
                moves_per_tick.len() > 0 ==> moves_per_tick[moves_per_tick.len() - 1][0].row
                    != current_row,
                (concat_groups(group_views(moves_per_tick@)) + current_tick@).len() == n - k,
                forall|i: int|
                    0 <= i < n - k ==> (concat_groups(group_views(moves_per_tick@))
                        + current_tick@)[i] == reversed_path[n - 1 - i],
            decreases k,
        {
            k -= 1;
            let pos = reversed_path[k];
            let ghost closed = group_views(moves_per_tick@);
            let ghost open = current_tick@;
            if pos.row == current_row {
                current_tick.push(pos);
                assert(concat_groups(closed) + current_tick@ =~= (concat_groups(closed)
                    + open).push(pos));
            } else {
                moves_per_tick.push(current_tick);
                current_tick = Vec::new();
                current_tick.push(pos);
                current_row = pos.row;
                proof {
                    let now = group_views(moves_per_tick@);
                    assert(now =~= closed.push(open));
                    assert(now.drop_last() =~= closed);
                    assert(concat_groups(now) == concat_groups(closed) + open);
                    assert(concat_groups(now) + current_tick@ =~= (concat_groups(closed)
                        + open).push(pos));
                }
            }
        }
        let ghost closed = group_views(moves_per_tick@);
        let ghost open = current_tick@;
        moves_per_tick.push(current_tick);
        proof {
            let now = group_views(moves_per_tick@);
            assert(now =~= closed.push(open));
            assert(now.drop_last() =~= closed);
            assert(concat_groups(now) == concat_groups(closed) + open);
            assert forall|g: int| 0 <= g < now.len() implies (#[trigger] now[g]).len() > 0 by {
                if g < closed.len() {
                    assert(now[g] == closed[g]);
                }
            }
            assert forall|g: int, i: int| 0 <= g < now.len() && 0 <= i < now[g].len() implies (#[trigger] now[g][i]).row
                == now[g][0].row by {
                if g < closed.len() {
                    assert(now[g] == closed[g]);
                }
            }
            assert forall|g: int| 0 <= g < now.len() - 1 implies (#[trigger] now[g + 1])[0].row
                != now[g][0].row by {
                assert(now[g] == closed[g]);
                if g + 1 < closed.len() {
                    assert(now[g + 1] == closed[g + 1]);
                }
            }
            assert forall|g: int| 0 <= g < moves_per_tick.len() implies (#[trigger] moves_per_tick[g]).len()
                > 0 by {
                assert(now[g].len() > 0);
            }
        }
        Path { piece, positions: moves_per_tick }
    }

    /// A copy of the vector.
    fn copy_positions(positions: &Vec<Position>) -> (copy: Vec<Position>)
        ensures
            copy@ == positions@,
    {
        let mut copy: Vec<Position> = Vec::new();
        let mut i: usize = 0;
        while i < positions.len()
            invariant
                i <= positions.len(),
                copy@ == positions@.take(i as int),
            decreases positions.len() - i,
        {
            copy.push(positions[i]);
            assert(positions@.take(i + 1) =~= positions@.take(i as int).push(positions[i as int]));
            i += 1;
        }
        assert(positions@.take(positions.len() as int) =~= positions@);
        copy
    }

    /// The piece that goes this way.
    pub fn piece(&self) -> (piece: Piece)
        ensures
            piece == self.spec_piece(),
    {
        self.piece
    }

    /// The move at the end of the way: the piece where it lands.
    pub open spec fn spec_final_move(&self) -> Move {
        Move { piece: self.spec_piece(), pos: self.walk().last() }
    }

    /// The move at the end of the way: the piece where it lands.
    pub fn final_move(&self) -> (m: Move)
        ensures
            m == self.spec_final_move(),
            m.piece == self.spec_piece(),
            self.walk().len() > 0,
            m.pos == self.walk().last(),
    {
        proof {
            use_type_invariant(self);
        }
        let last_tick = &self.positions[self.positions.len() - 1];
        let last_pos = last_tick[last_tick.len() - 1];
        Move { piece: self.piece, pos: last_pos }
    }

    /// The groups of positions, one for each tick.
    pub fn into_moves(self) -> (groups: Vec<Vec<Position>>)
        ensures
            group_views(groups@) == self.groups(),
    {
        self.positions
    }

    /// Number of ticks that the way takes.
    pub fn length(&self) -> (n: usize)
        ensures
            n == self.groups().len(),
            n > 0,
    {
        proof {
            use_type_invariant(self);
        }
        self.positions.len()
    }
}

/// The greatest height among the `n` columns from `col` on.
pub open spec fn max_height(board: &Board, col: int, n: int) -> int
    decreases n,
{
    if n <= 0 {
        0
    } else {
        let rest = max_height(board, col, n - 1);
        let h = board.spec_height(col + n - 1);
        if h > rest {
            h
        } else {
            rest
        }
    }
}

/// The row at which a matrix of the given side is tried first in the
/// columns from `col` on: with its lower edge on the highest column, but
/// not above the top row.
pub open spec fn probe_row(board: &Board, size: int, col: int) -> int {
    let free = BOARD_HEIGHT - max_height(board, col, size);
    if free > size {
        free - size
    } else {
        0
    }
}

/// Whether the position is where the piece comes to rest when it is
/// dropped in its columns: the matrix lies on the board and meets no
/// filled cell from the row where it is tried first down to its row, and
/// one row lower it does not.
pub open spec fn is_drop(board: &Board, piece: Piece, pos: Position) -> bool {
    let pattern = piece.rotation_spec(pos.rot as int);
    let size = pattern_size(piece@);
    &&& pos.rot < rotation_count(piece@)
    &&& 0 <= pos.col <= BOARD_WIDTH - size
    &&& probe_row(board, size, pos.col as int) <= pos.row
    &&& forall|r: int|
        probe_row(board, size, pos.col as int) <= r <= pos.row ==> !#[trigger] board.overlaps_whole(
            pattern,
            r,
            pos.col as int,
        )
    &&& board.overlaps_whole(pattern, pos.row + 1, pos.col as int)
}

/// Returns all possible moves when dropping a piece: for each rotation
/// and each column in which its matrix lies on the board, where the piece
/// comes to rest, unless it meets a filled cell already where it is tried
/// first. The moves are in the order of the rotations and, within one, of
/// the columns.
#[verifier::rlimit(40)]
pub fn move_drop(board: &Board, piece: Piece) -> (moves: Vec<Position>)
    requires
        board.wf(),
    ensures
        forall|i: int| 0 <= i < moves.len() ==> is_drop(board, piece, #[trigger] moves[i]),
        forall|i: int, j: int|
            0 <= i < j < moves.len() ==> moves[i].rot < moves[j].rot || (moves[i].rot == moves[j].rot
                && moves[i].col < moves[j].col),
        forall|rot: int, col: int|
            0 <= rot < rotation_count(piece@) && 0 <= col <= BOARD_WIDTH - pattern_size(piece@)
                && !board.overlaps_whole(
                piece.rotation_spec(rot),
                probe_row(board, pattern_size(piece@), col),
                col,
            ) ==> exists|i: int|
                0 <= i < moves.len() && (#[trigger] moves[i]).rot == rot && moves[i].col == col,
{
    let mut moves: Vec<Position> = Vec::new();
    let rotations = piece.num_rotations();
    let mut rot: usize = 0;
    while rot < rotations
        invariant
            rot <= rotations,
            rotations == rotation_count(piece@),
            board.wf(),
            forall|i: int| 0 <= i < moves.len() ==> is_drop(board, piece, #[trigger] moves[i]),
            forall|i: int| 0 <= i < moves.len() ==> (#[trigger] moves[i]).rot < rot,
            forall|i: int, j: int|
                0 <= i < j < moves.len() ==> moves[i].rot < moves[j].rot || (moves[i].rot
                    == moves[j].rot && moves[i].col < moves[j].col),
            forall|q: int, col: int|
                0 <= q < rot && 0 <= col <= BOARD_WIDTH - pattern_size(piece@)
                    && !board.overlaps_whole(
                    piece.rotation_spec(q),
                    probe_row(board, pattern_size(piece@), col),
                    col,
                ) ==> exists|i: int|
                    0 <= i < moves.len() && (#[trigger] moves[i]).rot == q && moves[i].col == col,
        decreases rotations - rot,
    {
        let pattern = piece.rotation(rot);
        let size = pattern.cols();
        let mut col: usize = 0;
        while col <= BOARD_WIDTH - size
            invariant
                rot < rotations,
                rotations == rotation_count(piece@),
                board.wf(),
                pattern == piece.rotation_spec(rot as int),
                size == pattern_size(piece@),
                size == pattern.size(),
                1 <= size <= 4,
                col <= BOARD_WIDTH - size + 1,
                forall|i: int| 0 <= i < moves.len() ==> is_drop(board, piece, #[trigger] moves[i]),
                forall|i: int|
                    0 <= i < moves.len() ==> (#[trigger] moves[i]).rot < rot || (moves[i].rot == rot
                        && moves[i].col < col),
                forall|i: int, j: int|
                    0 <= i < j < moves.len() ==> moves[i].rot < moves[j].rot || (moves[i].rot
                        == moves[j].rot && moves[i].col < moves[j].col),
                forall|q: int, k: int|
                    (0 <= q < rot && 0 <= k <= BOARD_WIDTH - pattern_size(piece@) || q == rot && 0
                        <= k < col) && !board.overlaps_whole(
                        piece.rotation_spec(q),
                        probe_row(board, pattern_size(piece@), k),
                        k,
                    ) ==> exists|i: int|
                        0 <= i < moves.len() && (#[trigger] moves[i]).rot == q && moves[i].col == k,
            decreases BOARD_WIDTH - size + 1 - col,
        {
            let mut highest: usize = 0;
            let mut c: usize = 0;
            while c < size
                invariant
                    c <= size <= 4,
                    col + size <= BOARD_WIDTH,
                    board.wf(),
                    highest == max_height(board, col as int, c as int),
                    highest <= BOARD_HEIGHT,
                decreases size - c,
            {
                proof {
                    assert(board.is_height_of(col + c, board.spec_height(col + c)));
                }
                let h = board.height(col + c);
                if h > highest {
                    highest = h;
                }
                c += 1;
            }
            let free = BOARD_HEIGHT - highest;
            let mut row: usize = if free > size {
                free - size
            } else {
                0
            };
            let ghost seen = moves@;
            if !board.overlaps(&pattern, row, col) {
                let ghost probe = row as int;
                while !board.overlaps(&pattern, row + 1, col)
                    invariant
                        probe <= row,
                        row + size <= BOARD_HEIGHT,
                        size == pattern.size(),
                        forall|r: int|
                            probe <= r <= row ==> !#[trigger] board.overlaps_whole(
                                pattern,
                                r,
                                col as int,
                            ),
                    decreases BOARD_HEIGHT - row,
                {
                    row += 1;
                }
                moves.push(Position { rot, row: row as isize, col: col as isize });
                proof {
                    let last = moves.len() - 1;
                    assert(moves[last].rot == rot && moves[last].col == col);
                    assert forall|i: int| 0 <= i < moves.len() implies is_drop(
                        board,
                        piece,
                        #[trigger] moves[i],
                    ) by {
                        if i < last {
                            assert(moves[i] == seen[i]);
                        }
                    }
                    assert forall|i: int, j: int| 0 <= i < j < moves.len() implies moves[i].rot
                        < moves[j].rot || (moves[i].rot == moves[j].rot && moves[i].col
                        < moves[j].col) by {
                        assert(moves[i] == seen[i]);
                        if j < last {
                            assert(moves[j] == seen[j]);
                        }
                    }
                }
            }
            proof {
                assert forall|q: int, k: int|
                    (0 <= q < rot && 0 <= k <= BOARD_WIDTH - pattern_size(piece@) || q == rot && 0
                        <= k < col + 1) && !board.overlaps_whole(
                        piece.rotation_spec(q),
                        probe_row(board, pattern_size(piece@), k),
                        k,
                    ) implies exists|i: int|
                    0 <= i < moves.len() && (#[trigger] moves[i]).rot == q && moves[i].col == k by {
                    if q == rot && k == col {
                        let last = moves.len() - 1;
                        assert(moves[last].rot == q && moves[last].col == k);
                    } else {
                        let i = choose|i: int|
                            0 <= i < seen.len() && (#[trigger] seen[i]).rot == q && seen[i].col == k;
                        assert(moves[i] == seen[i]);
                    }
                }
            }
            col += 1;
        }
        rot += 1;
    }
    moves
}

impl Clone for Path {
    fn clone(&self) -> (copy: Path)
        ensures
            copy.spec_piece() == self.spec_piece(),
            copy.groups() == self.groups(),
    {
        proof {
            use_type_invariant(self);
        }
        let mut positions: Vec<Vec<Position>> = Vec::new();
        let mut g: usize = 0;
        while g < self.positions.len()
            invariant
                g <= self.positions.len(),
                positions.len() == g,
                forall|i: int| 0 <= i < g ==> (#[trigger] positions[i])@ == self.positions[i]@,
            decreases self.positions.len() - g,
        {
            positions.push(Path::copy_positions(&self.positions[g]));
            g += 1;
        }
        assert(group_views(positions@) =~= group_views(self.positions@));
        Path { piece: self.piece, positions }
    }
}

} // verus!
