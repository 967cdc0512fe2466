use crate::board::{Board, BOARD_HEIGHT};
use crate::moves::{grouped_by_row, Move, Path, Position};
use crate::piece::{lemma_shape_not_empty, rotation_count, shape, spawn_position, Piece, N_PIECES};
use vstd::prelude::*;

verus! {

/// Moves to the side and turns that a piece may make on its way at the
/// highest speed.
pub const MIN_MOVES: u64 = 5;

/// Moves to the side and turns that a piece may make on its way at the
/// lowest speed.
pub const MAX_MOVES: u64 = 12;

/// Moves to the side and turns that a piece may make within one tick at
/// the lowest speed.
pub const MAX_MOVES_PER_TICK: u64 = 3;

/// The level from which on the game runs at its highest speed.
pub const TOP_SPEED_LEVEL: u64 = 30;

/// The quotient `n / d` rounded to the nearest whole number, a half
/// upwards; for `n >= 0` and `d > 0`.
pub open spec fn round_div(n: int, d: int) -> int {
    (2 * n + d) / (2 * d)
}

/// How much of the time for input is left at the given level, in parts of
/// `TOP_SPEED_LEVEL`: all of it at level 0 and without a level, nothing
/// from the top speed level on.
pub open spec fn dexterity(level: Option<u64>) -> int {
    match level {
        Some(l) => if l >= TOP_SPEED_LEVEL {
            0
        } else {
            TOP_SPEED_LEVEL - l
        },
        None => TOP_SPEED_LEVEL as int,
    }
}

/// The most moves to the side and turns that a piece may make on its way
/// at the given level.
pub open spec fn max_moves_at(level: Option<u64>) -> int {
    MIN_MOVES + round_div(dexterity(level) * (MAX_MOVES - MIN_MOVES), TOP_SPEED_LEVEL as int)
}

/// The most moves to the side and turns that a piece may make within one
/// tick at the given level.
pub open spec fn max_tick_moves_at(level: Option<u64>) -> int {
    1 + round_div(dexterity(level) * (MAX_MOVES_PER_TICK - 1), TOP_SPEED_LEVEL as int)
}

fn dexterity_of(level: Option<u64>) -> (d: u64)
    ensures
        d == dexterity(level),
        d <= TOP_SPEED_LEVEL,
{
    match level {
        Some(l) => if l >= TOP_SPEED_LEVEL {
            0
        } else {
            TOP_SPEED_LEVEL - l
        },
        None => TOP_SPEED_LEVEL,
    }
}

/// The most moves to the side and turns that a piece may make on its way
/// at the given level.
pub fn max_moves(level: Option<u64>) -> (n: u64)
    ensures
        n == max_moves_at(level),
        MIN_MOVES <= n <= MAX_MOVES,
{
    let d = dexterity_of(level);
    let span = MAX_MOVES - MIN_MOVES;
    assert(d * span == 7 * d) by (nonlinear_arith)
        requires
            span == 7,
    ;
    MIN_MOVES + (2 * (d * span) + TOP_SPEED_LEVEL) / (2 * TOP_SPEED_LEVEL)
}

/// The most moves to the side and turns that a piece may make within one
/// tick at the given level.
pub fn max_tick_moves(level: Option<u64>) -> (n: u64)
    ensures
        n == max_tick_moves_at(level),
        1 <= n <= MAX_MOVES_PER_TICK,
{
    let d = dexterity_of(level);
    let span = MAX_MOVES_PER_TICK - 1;
    assert(d * span == 2 * d) by (nonlinear_arith)
        requires
            span == 2,
    ;
    1 + (2 * (d * span) + TOP_SPEED_LEVEL) / (2 * TOP_SPEED_LEVEL)
}

/// Whether the piece, at the position, has a rotation of its own and
/// overlaps nothing on the board.
pub open spec fn fits(board: &Board, piece: int, pos: Position) -> bool {
    pos.rot < rotation_count(piece) && !board.overlaps_at(
        piece,
        pos.rot as int,
        pos.row as int,
        pos.col as int,
    )
}

/// Whether the piece, at the position, cannot sink any further.
pub open spec fn lands(board: &Board, piece: int, pos: Position) -> bool {
    board.overlaps_at(piece, pos.rot as int, pos.row + 1, pos.col as int)
}

/// The position one row lower.
pub open spec fn lowered(pos: Position) -> Position {
    Position { rot: pos.rot, row: (pos.row + 1) as isize, col: pos.col }
}

/// Where the piece lands when it sinks from the position without any
/// input.
pub open spec fn drop_landing(board: &Board, piece: int, pos: Position) -> Position
    decreases BOARD_HEIGHT - pos.row,
{
    if pos.row >= BOARD_HEIGHT || lands(board, piece, pos) {
        pos
    } else {
        drop_landing(board, piece, lowered(pos))
    }
}

/// Whether `to` is `from` one column to the left or to the right, or one
/// turn on, in the same row.
pub open spec fn is_lateral(piece: int, from: Position, to: Position) -> bool {
    let n = rotation_count(piece);
    to.row == from.row && {
        ||| to.rot == from.rot && (to.col == from.col - 1 || to.col == from.col + 1)
        ||| to.col == from.col && n >= 2 && to.rot == (from.rot + 1) % n
        ||| to.col == from.col && n >= 3 && to.rot == (from.rot + n - 1) % n
    }
}

/// Whether `to` is `from` one row lower.
pub open spec fn is_descent(from: Position, to: Position) -> bool {
    to.rot == from.rot && to.col == from.col && to.row == from.row + 1
}

/// Whether a piece gets from `from` to `to` with one input or by sinking
/// one row.
pub open spec fn is_step(piece: int, from: Position, to: Position) -> bool {
    is_lateral(piece, from, to) || is_descent(from, to)
}

/// Whether the positions are a way of the piece over the board: it begins
/// where the piece spawns, the piece fits at every position, and each
/// position follows from the one before by one step.
pub open spec fn is_walk(board: &Board, piece: int, walk: Seq<Position>) -> bool {
    &&& walk.len() > 0
    &&& walk[0] == spawn_position(piece)
    &&& forall|i: int| 0 <= i < walk.len() ==> fits(board, piece, #[trigger] walk[i])
    &&& forall|i: int| 0 <= i < walk.len() - 1 ==> is_step(piece, walk[i], #[trigger] walk[i + 1])
}

/// Number of steps without sinking that lead to position `k` of the walk
/// since the piece last sank.
pub open spec fn lateral_run(walk: Seq<Position>, k: int) -> int
    decreases k,
{
    if k <= 0 {
        0
    } else if walk[k].row == walk[k - 1].row {
        lateral_run(walk, k - 1) + 1
    } else {
        0
    }
}

/// Number of steps without sinking among the first `k` steps of the walk.
pub open spec fn lateral_total(walk: Seq<Position>, k: int) -> int
    decreases k,
{
    if k <= 0 {
        0
    } else {
        lateral_total(walk, k - 1) + if walk[k].row == walk[k - 1].row {
            1int
        } else {
            0int
        }
    }
}

/// Whether the walk keeps the limits on input at the given level: between
/// two rows never more steps than one tick allows, and on the whole way
/// not more than a piece may make.
pub open spec fn within_caps(walk: Seq<Position>, level: Option<u64>) -> bool {
    &&& forall|k: int| 0 <= k < walk.len() ==> lateral_run(walk, k) <= max_tick_moves_at(level)
    &&& lateral_total(walk, walk.len() - 1) <= max_moves_at(level)
}

/// The `i`-th position that a piece can get to from `pos` with one step:
/// left, right, down, one turn on, one turn back.
pub open spec fn successor(piece: int, pos: Position, i: int) -> Position {
    let n = rotation_count(piece);
    if i == 0 {
        Position { rot: pos.rot, row: pos.row, col: (pos.col - 1) as isize }
    } else if i == 1 {
        Position { rot: pos.rot, row: pos.row, col: (pos.col + 1) as isize }
    } else if i == 2 {
        Position { rot: pos.rot, row: (pos.row + 1) as isize, col: pos.col }
    } else if i == 3 {
        Position { rot: ((pos.rot + 1) % n) as usize, row: pos.row, col: pos.col }
    } else {
        Position { rot: ((pos.rot + n - 1) % n) as usize, row: pos.row, col: pos.col }
    }
}

/// Number of positions that a piece can get to with one step: a piece
/// with one rotation does not turn, one with two turns one way only.
pub open spec fn successor_count(piece: int) -> int {
    if rotation_count(piece) >= 3 {
        5
    } else if rotation_count(piece) >= 2 {
        4
    } else {
        3
    }
}

/// Writes the positions that the piece can get to from `pos` with one
/// step to the front of `candidates` and returns their number.
pub fn next_positions(candidates: &mut [Position; 5], pos: Position, piece: Piece) -> (count: usize)
    requires
        pos.rot < rotation_count(piece@),
        isize::MIN < pos.col < isize::MAX,
        pos.row < isize::MAX,
    ensures
        count == successor_count(piece@),
        forall|i: int| 0 <= i < count ==> final(candidates)[i] == successor(piece@, pos, i),
        forall|i: int| 0 <= i < count ==> is_step(piece@, pos, #[trigger] successor(piece@, pos, i)),
{
    let n = piece.num_rotations();
    candidates[0] = Position { rot: pos.rot, row: pos.row, col: pos.col - 1 };
    candidates[1] = Position { rot: pos.rot, row: pos.row, col: pos.col + 1 };
    candidates[2] = Position { rot: pos.rot, row: pos.row + 1, col: pos.col };
    if n > 1 {
        candidates[3] = Position { rot: (pos.rot + 1) % n, row: pos.row, col: pos.col };
        if n > 2 {
            candidates[4] = Position { rot: (pos.rot + n - 1) % n, row: pos.row, col: pos.col };
            5
        } else {
            4
        }
    } else {
        3
    }
}

/// Whether the piece, at the position, cannot sink any further.
pub fn touches_ground(piece: Piece, pos: Position, board: &Board) -> (b: bool)
    requires
        pos.rot < rotation_count(piece@),
    ensures
        b == lands(board, piece@, pos),
{
    let m = Move { piece, pos };
    m.drop(board).is_none()
}

/// A piece that fits on the board lies within the columns and above the
/// floor.
pub proof fn lemma_fits_bounds(board: &Board, piece: int, pos: Position)
    requires
        0 <= piece < N_PIECES,
        fits(board, piece, pos),
    ensures
        pos.rot < 4,
        pos.row <= 19,
        -3 <= pos.col <= 9,
{
    lemma_shape_not_empty(piece, pos.rot as int);
    let (r, c) = choose|r: int, c: int| shape(piece, pos.rot as int, r, c);
    assert(!board.blocked(pos.row + r, pos.col + c));
}

/// On a board without filled cells every piece fits where it spawns.
pub proof fn lemma_spawn_fits_empty_board(board: &Board, piece: int)
    requires
        0 <= piece < N_PIECES,
        forall|r: int, c: int| !board.filled_at(r, c),
    ensures
        fits(board, piece, spawn_position(piece)),
{
    let start = spawn_position(piece);
    assert forall|r: int, c: int| shape(piece, start.rot as int, r, c) implies !board.blocked(
        start.row + r,
        start.col + c,
    ) by {
        assert(!board.filled_at(start.row + r, start.col + c));
    }
}

/// A position together with the inputs made on the way to it, in all and
/// since the piece last sank.
#[derive(Clone, Copy, Debug, PartialEq, Eq, Structural)]
struct Node {
    pos: Position,
    moves: u64,
    tick_moves: u64,
}

/// What the search knows of one node.
#[derive(Clone, Copy, Debug)]
struct Entry {
    seen: bool,
    done: bool,
    parent: Node,
}

/// Number of positions at which a piece can fit.
const PLACES: usize = 1144;

/// Number of nodes: a position with up to `MAX_MOVES` inputs in all and
/// up to `MAX_MOVES_PER_TICK` since the piece last sank.
const SLOTS: usize = 59488;

spec fn in_table(pos: Position) -> bool {
    pos.rot < 4 && -2 <= pos.row <= 19 && -3 <= pos.col <= 9
}

spec fn place_of(pos: Position) -> int {
    (pos.rot * 22 + (pos.row + 2)) * 13 + (pos.col + 3)
}

spec fn slot_at(place: int, moves: int, tick_moves: int) -> int {
    (place * 13 + moves) * 4 + tick_moves
}

spec fn key_ok(n: Node) -> bool {
    in_table(n.pos) && n.moves <= MAX_MOVES && n.tick_moves <= MAX_MOVES_PER_TICK
}

spec fn slot_of(n: Node) -> int {
    slot_at(place_of(n.pos), n.moves as int, n.tick_moves as int)
}

/// The node that a step to `q` leads to: a step in the same row is one
/// input more, a step down begins a new tick.
spec fn next_node(n: Node, q: Position) -> Node {
    if q.row == n.pos.row {
        Node { pos: q, moves: (n.moves + 1) as u64, tick_moves: (n.tick_moves + 1) as u64 }
    } else {
        Node { pos: q, moves: n.moves, tick_moves: 0 }
    }
}

spec fn origin(start: Position) -> Node {
    Node { pos: start, moves: 0, tick_moves: 0 }
}

fn slot(n: Node) -> (s: usize)
    requires
        key_ok(n),
    ensures
        s == slot_of(n),
        s < SLOTS,
{
    let place = (n.pos.rot * 22 + (n.pos.row + 2) as usize) * 13 + (n.pos.col + 3) as usize;
    (place * 13 + n.moves as usize) * 4 + n.tick_moves as usize
}

/// No two nodes share a slot of the table.
proof fn lemma_slot_injective(a: Node, b: Node)
    requires
        key_ok(a),
        key_ok(b),
        slot_of(a) == slot_of(b),
    ensures
        a == b,
{
    let pa = place_of(a.pos);
    let pb = place_of(b.pos);
    assert(0 <= pa < PLACES && 0 <= pb < PLACES);
    assert(pa == pb);
}

/// Number of visited nodes among the first `n` of the table.
spec fn count_seen(table: Seq<Entry>, n: int) -> int
    decreases n,
{
    if n <= 0 {
        0
    } else {
        count_seen(table, n - 1) + if table[n - 1].seen {
            1int
        } else {
            0int
        }
    }
}

proof fn lemma_count_seen_bounds(table: Seq<Entry>, n: int)
    requires
        0 <= n,
    ensures
        0 <= count_seen(table, n) <= n,
    decreases n,
{
    if n > 0 {
        lemma_count_seen_bounds(table, n - 1);
    }
}

proof fn lemma_count_seen_update(before: Seq<Entry>, after: Seq<Entry>, s: int, n: int)
    requires
        before.len() == after.len(),
        0 <= n <= before.len(),
        0 <= s < before.len(),
        forall|i: int| 0 <= i < before.len() && i != s ==> before[i].seen == after[i].seen,
    ensures
        count_seen(after, n) == count_seen(before, n) + if s < n && after[s].seen
            && !before[s].seen {
            1int
        } else if s < n && !after[s].seen && before[s].seen {
            -1int
        } else {
            0int
        },
    decreases n,
{
    if n > 0 {
        lemma_count_seen_update(before, after, s, n - 1);
    }
}

proof fn lemma_count_seen_prefix(a: Seq<Entry>, b: Seq<Entry>, n: int)
    requires
        0 <= n <= a.len(),
        n <= b.len(),
        forall|i: int| 0 <= i < n ==> a[i] == b[i],
    ensures
        count_seen(a, n) == count_seen(b, n),
    decreases n,
{
    if n > 0 {
        lemma_count_seen_prefix(a, b, n - 1);
    }
}

spec fn queued(queue: Seq<Node>, n: Node) -> bool {
    exists|i: int| 0 <= i < queue.len() && #[trigger] queue[i] == n
}

spec fn listed(list: Seq<Node>, pos: Position) -> bool {
    exists|i: int| 0 <= i < list.len() && (#[trigger] list[i]).pos == pos
}

spec fn seen_at(table: Seq<Entry>, place: int, moves: int, tick_moves: int) -> bool {
    table[slot_at(place, moves, tick_moves)].seen
}

/// Whether a node at the position is visited that has made no more
/// inputs, neither in all nor since the piece last sank.
spec fn covered(table: Seq<Entry>, n: Node) -> bool {
    in_table(n.pos) && exists|m: int, t: int|
        0 <= m <= n.moves && 0 <= t <= n.tick_moves && #[trigger] seen_at(
            table,
            place_of(n.pos),
            m,
            t,
        )
}

/// Whether the piece gets from the node to `q` by one step, fits there,
/// and keeps the limits on input.
spec fn reaches(board: &Board, piece: int, mm: int, mt: int, n: Node, q: Position) -> bool {
    &&& is_step(piece, n.pos, q)
    &&& fits(board, piece, q)
    &&& q.row == n.pos.row ==> n.moves + 1 <= mm && n.tick_moves + 1 <= mt
}

/// Whether every node that the piece reaches from `n` is covered.
spec fn closed_at(board: &Board, piece: int, mm: int, mt: int, table: Seq<Entry>, n: Node) -> bool {
    forall|q: Position| #[trigger] reaches(board, piece, mm, mt, n, q) ==> covered(table, next_node(n, q))
}

/// What holds of a visited node: the piece fits there, the inputs keep
/// the limits, and the node before it on the way is visited too and one
/// step away.
spec fn entry_ok(
    board: &Board,
    piece: int,
    start: Position,
    mm: int,
    mt: int,
    table: Seq<Entry>,
    n: Node,
) -> bool {
    let e = table[slot_of(n)];
    &&& fits(board, piece, n.pos)
    &&& n.pos.row >= start.row
    &&& n.moves <= mm
    &&& n.tick_moves <= mt
    &&& n != origin(start) ==> {
        let q = e.parent;
        &&& key_ok(q)
        &&& table[slot_of(q)].seen
        &&& is_step(piece, q.pos, n.pos)
        &&& n == next_node(q, n.pos)
    }
}

#[verifier::opaque]
spec fn table_ok(board: &Board, piece: int, start: Position, mm: int, mt: int, table: Seq<Entry>) -> bool {
    &&& table.len() == SLOTS
    &&& 0 <= piece < N_PIECES
    &&& 0 <= mm <= MAX_MOVES
    &&& 0 <= mt <= MAX_MOVES_PER_TICK
    &&& in_table(start)
    &&& table[slot_of(origin(start))].seen
    &&& forall|n: Node|
        key_ok(n) && (#[trigger] table[slot_of(n)]).seen ==> entry_ok(
            board,
            piece,
            start,
            mm,
            mt,
            table,
            n,
        )
    &&& forall|n: Node| key_ok(n) && (#[trigger] table[slot_of(n)]).done ==> table[slot_of(n)].seen
}

#[verifier::opaque]
spec fn queue_ok(table: Seq<Entry>, queue: Seq<Node>) -> bool {
    &&& forall|i: int|
        0 <= i < queue.len() ==> {
            let n = #[trigger] queue[i];
            &&& key_ok(n)
            &&& table[slot_of(n)].seen
            &&& !table[slot_of(n)].done
        }
    &&& forall|i: int, j: int| 0 <= i < j < queue.len() ==> #[trigger] queue[i] != #[trigger] queue[j]
    &&& forall|n: Node|
        key_ok(n) && (#[trigger] table[slot_of(n)]).seen && !table[slot_of(n)].done ==> queued(
            queue,
            n,
        )
}

#[verifier::opaque]
spec fn destinations_ok(board: &Board, piece: int, table: Seq<Entry>, list: Seq<Node>) -> bool {
    &&& forall|i: int|
        0 <= i < list.len() ==> {
            let n = #[trigger] list[i];
            &&& key_ok(n)
            &&& table[slot_of(n)].seen
            &&& table[slot_of(n)].done
            &&& lands(board, piece, n.pos)
        }
    &&& forall|i: int, j: int|
        0 <= i < j < list.len() ==> (#[trigger] list[i]).pos != (#[trigger] list[j]).pos
    &&& forall|n: Node|
        key_ok(n) && (#[trigger] table[slot_of(n)]).done && lands(board, piece, n.pos) ==> listed(
            list,
            n.pos,
        )
}

/// Every node that the search is through with, but for `pending`, has
/// all the nodes covered that the piece reaches from it.
#[verifier::opaque]
spec fn closure_ok(
    board: &Board,
    piece: int,
    mm: int,
    mt: int,
    table: Seq<Entry>,
    pending: Option<Node>,
) -> bool {
    forall|n: Node|
        key_ok(n) && (#[trigger] table[slot_of(n)]).done && Some(n) != pending ==> closed_at(
            board,
            piece,
            mm,
            mt,
            table,
            n,
        )
}

/// The state of a search: what is known of each node, the nodes still to
/// visit, and the landings found.
struct Search {
    table: Vec<Entry>,
    queue: Vec<Node>,
    destinations: Vec<Node>,
    seen_count: usize,
}

/// The entry of a node that the search is through with.
spec fn settled(e: Entry) -> Entry {
    Entry { seen: e.seen, done: true, parent: e.parent }
}

impl Search {
    spec fn ok(
        &self,
        board: &Board,
        piece: int,
        start: Position,
        mm: int,
        mt: int,
        pending: Option<Node>,
    ) -> bool {
        &&& table_ok(board, piece, start, mm, mt, self.table@)
        &&& queue_ok(self.table@, self.queue@)
        &&& destinations_ok(board, piece, self.table@, self.destinations@)
        &&& closure_ok(board, piece, mm, mt, self.table@, pending)
        &&& self.seen_count == count_seen(self.table@, SLOTS as int)
        &&& self.table.len() == SLOTS
        &&& start.row >= -2
    }

    /// What is left to do at most: every node not yet visited may still
    /// be queued and taken from the queue.
    spec fn work(&self) -> int {
        2 * (SLOTS - self.seen_count) + self.queue.len()
    }

    /// A search that has visited the start.
    #[verifier::rlimit(40)]
    fn begin(board: &Board, piece: Piece, start: Position, Ghost(mm): Ghost<int>, Ghost(mt): Ghost<int>) -> (search: Search)
        requires
            fits(board, piece@, start),
            start.row >= -2,
            0 <= piece@ < N_PIECES,
            0 <= mm <= MAX_MOVES,
            0 <= mt <= MAX_MOVES_PER_TICK,
        ensures
            search.ok(board, piece@, start, mm, mt, None),
    {
        proof {
            lemma_fits_bounds(board, piece@, start);
        }
        let first = Node { pos: start, moves: 0, tick_moves: 0 };
        let blank = Entry { seen: false, done: false, parent: first };
        let mut table: Vec<Entry> = Vec::new();
        let mut i: usize = 0;
        while i < SLOTS
            invariant
                i <= SLOTS,
                table.len() == i,
                forall|j: int| 0 <= j < i ==> table[j] == blank,
                !blank.seen,
                !blank.done,
                count_seen(table@, i as int) == 0,
            decreases SLOTS - i,
        {
            let ghost before = table@;
            table.push(blank);
            proof {
                lemma_count_seen_prefix(before, table@, i as int);
            }
            i += 1;
        }
        let s = slot(first);
        let ghost before = table@;
        table[s] = Entry { seen: true, done: false, parent: first };
        let mut queue: Vec<Node> = Vec::new();
        queue.push(first);
        let search = Search { table, queue, destinations: Vec::new(), seen_count: 1 };
        proof {
            reveal(table_ok);
            reveal(queue_ok);
            reveal(destinations_ok);
            reveal(closure_ok);
            lemma_count_seen_update(before, search.table@, s as int, SLOTS as int);
            assert forall|n: Node| key_ok(n) && (#[trigger] search.table@[slot_of(n)]).seen implies n
                == first by {
                if slot_of(n) != s {
                    assert(search.table@[slot_of(n)] == blank);
                } else {
                    lemma_slot_injective(n, first);
                }
            }
            assert(search.queue@[0] == first);
            assert forall|n: Node| key_ok(n) && (#[trigger] search.table@[slot_of(n)]).done implies false by {
                if slot_of(n) != s {
                    assert(search.table@[slot_of(n)] == blank);
                }
            }
        }
        search
    }

    /// Takes a node of the lowest row from the queue.
    fn pop_min(&mut self) -> (out: (Node, Ghost<int>))
        requires
            old(self).queue.len() > 0,
        ensures
            0 <= out.1@ < old(self).queue.len(),
            out.0 == old(self).queue[out.1@],
            final(self).queue@ == old(self).queue@.remove(out.1@),
            forall|j: int| 0 <= j < old(self).queue.len() ==> out.0.pos.row <= old(self).queue[j].pos.row,
            final(self).table == old(self).table,
            final(self).destinations == old(self).destinations,
            final(self).seen_count == old(self).seen_count,
    {
        let mut best: usize = 0;
        let mut i: usize = 1;
        while i < self.queue.len()
            invariant
                0 <= best < i <= self.queue.len(),
                forall|j: int| 0 <= j < i ==> self.queue[best as int].pos.row <= self.queue[j].pos.row,
            decreases self.queue.len() - i,
        {
            if self.queue[i].pos.row < self.queue[best].pos.row {
                best = i;
            }
            i += 1;
        }
        let node = self.queue.remove(best);
        (node, Ghost(best as int))
    }

    /// Whether a landing at the position is on the list.
    fn is_listed(&self, pos: Position) -> (b: bool)
        ensures
            b == listed(self.destinations@, pos),
    {
        let mut i: usize = 0;
        while i < self.destinations.len()
            invariant
                i <= self.destinations.len(),
                forall|k: int| 0 <= k < i ==> (#[trigger] self.destinations[k]).pos != pos,
            decreases self.destinations.len() - i,
        {
            if self.destinations[i].pos == pos {
                return true;
            }
            i += 1;
        }
        false
    }

    /// Whether a node at the position is visited that has made no more
    /// inputs than `n`.
    fn is_covered(&self, n: Node) -> (b: bool)
        requires
            key_ok(n),
            self.table.len() == SLOTS,
        ensures
            b == covered(self.table@, n),
    {
        let ghost place = place_of(n.pos);
        let mut m: u64 = 0;
        while m <= n.moves
            invariant
                key_ok(n),
                self.table.len() == SLOTS,
                place == place_of(n.pos),
                0 <= place < PLACES,
                m <= n.moves + 1,
                forall|i: int, t: int|
                    0 <= i < m && 0 <= t <= n.tick_moves ==> !#[trigger] seen_at(
                        self.table@,
                        place,
                        i,
                        t,
                    ),
            decreases n.moves + 1 - m,
        {
            let mut t: u64 = 0;
            while t <= n.tick_moves
                invariant
                    key_ok(n),
                    self.table.len() == SLOTS,
                    place == place_of(n.pos),
                    0 <= place < PLACES,
                    m <= n.moves,
                    t <= n.tick_moves + 1,
                    forall|i: int, k: int|
                        0 <= i < m && 0 <= k <= n.tick_moves ==> !#[trigger] seen_at(
                            self.table@,
                            place,
                            i,
                            k,
                        ),
                    forall|k: int| 0 <= k < t ==> !#[trigger] seen_at(self.table@, place, m as int, k),
                decreases n.tick_moves + 1 - t,
            {
                let probe = Node { pos: n.pos, moves: m, tick_moves: t };
                if self.table[slot(probe)].seen {
                    assert(seen_at(self.table@, place, m as int, t as int));
                    return true;
                }
                t += 1;
            }
            m += 1;
        }
        false
    }

    /// Takes a node of the lowest row from the queue and is through with
    /// it; where it is a landing that is not yet on the list of
    /// destinations, it is put there.
    #[verifier::rlimit(40)]
    fn take(
        &mut self,
        board: &Board,
        piece: Piece,
        Ghost(start): Ghost<Position>,
        Ghost(mm): Ghost<int>,
        Ghost(mt): Ghost<int>,
    ) -> (node: Node)
        requires
            old(self).ok(board, piece@, start, mm, mt, None),
            old(self).queue.len() > 0,
        ensures
            final(self).ok(board, piece@, start, mm, mt, Some(node)),
            final(self).work() == old(self).work() - 1,
            key_ok(node),
            final(self).table[slot_of(node)].seen,
            final(self).table[slot_of(node)].done,
    {
        let ghost held = self.queue@;
        let ghost before = self.table@;
        let ghost found = self.destinations@;
        let (node, Ghost(at)) = self.pop_min();
        proof {
            lemma_queued_entry(before, held, at);
            lemma_entry(board, piece@, start, mm, mt, before, node);
        }
        let s = slot(node);
        let mut entry = self.table[s];
        entry.done = true;
        self.table[s] = entry;
        let ghost after = self.table@;
        proof {
            assert(after == before.update(s as int, settled(before[s as int])));
            lemma_settle_table(board, piece@, start, mm, mt, before, after, node);
            lemma_settle_queue(before, after, held, at, self.queue@);
            lemma_count_seen_update(before, after, s as int, SLOTS as int);
            lemma_settle_closure(board, piece@, mm, mt, before, after, node);
        }
        let grounded = touches_ground(piece, node.pos, board);
        if grounded && !self.is_listed(node.pos) {
            self.destinations.push(node);
        }
        proof {
            lemma_settle_destinations(board, piece@, before, after, node, found, self.destinations@);
        }
        node
    }

    /// Looks at one position next to the node the search is at: if the
    /// piece fits there, the inputs keep the limits, and no node at the
    /// position is visited yet that has made no more inputs, the node is
    /// visited and queued.
    #[verifier::rlimit(40)]
    fn relax(
        &mut self,
        board: &Board,
        piece: Piece,
        Ghost(start): Ghost<Position>,
        max_moves: u64,
        max_tick_moves: u64,
        cur: Node,
        next: Position,
    )
        requires
            old(self).ok(board, piece@, start, max_moves as int, max_tick_moves as int, Some(cur)),
            key_ok(cur),
            old(self).table[slot_of(cur)].seen,
            is_step(piece@, cur.pos, next),
            max_moves <= MAX_MOVES,
            max_tick_moves <= MAX_MOVES_PER_TICK,
        ensures
            final(self).ok(board, piece@, start, max_moves as int, max_tick_moves as int, Some(cur)),
            final(self).work() <= old(self).work(),
            forall|n: Node|
                key_ok(n) && (#[trigger] old(self).table[slot_of(n)]).seen ==> final(self).table[slot_of(
                    n,
                )] == old(self).table[slot_of(n)],
            forall|n: Node|
                key_ok(n) ==> (#[trigger] final(self).table[slot_of(n)]).done == old(self).table[slot_of(
                    n,
                )].done,
            reaches(board, piece@, max_moves as int, max_tick_moves as int, cur, next) ==> covered(
                final(self).table@,
                next_node(cur, next),
            ),
    {
        let ghost mm = max_moves as int;
        let ghost mt = max_tick_moves as int;
        let ghost before = self.table@;
        let ghost held = self.queue@;
        proof {
            lemma_entry(board, piece@, start, mm, mt, before, cur);
            lemma_count_seen_bounds(before, SLOTS as int);
        }
        let candidate = Move { piece, pos: next };
        if board.overlaps_move(candidate) {
            return ;
        }
        proof {
            lemma_fits_bounds(board, piece@, next);
        }
        let same_row = next.row == cur.pos.row;
        if same_row && (cur.moves >= max_moves || cur.tick_moves >= max_tick_moves) {
            return ;
        }
        let node = if same_row {
            Node { pos: next, moves: cur.moves + 1, tick_moves: cur.tick_moves + 1 }
        } else {
            Node { pos: next, moves: cur.moves, tick_moves: 0 }
        };
        assert(node == next_node(cur, next));
        if self.is_covered(node) {
            return ;
        }
        let s = slot(node);
        proof {
            assert(!seen_at(before, place_of(node.pos), node.moves as int, node.tick_moves as int));
            assert(!before[s as int].seen);
            assert(!before[s as int].done) by {
                reveal(table_ok);
            }
        }
        self.table[s] = Entry { seen: true, done: false, parent: cur };
        self.queue.push(node);
        self.seen_count = self.seen_count + 1;
        proof {
            lemma_count_seen_update(before, self.table@, s as int, SLOTS as int);
            lemma_visit_table(board, piece@, start, mm, mt, before, self.table@, cur, node);
            lemma_visit_queue(before, self.table@, held, self.queue@, node);
            lemma_visit_rest(board, piece@, mm, mt, before, self.table@, self.destinations@, Some(cur), node);
            assert(seen_at(self.table@, place_of(node.pos), node.moves as int, node.tick_moves as int));
        }
    }

    /// The way back from a visited node to the start: the node, the one
    /// before it, and so on. Returns the positions of the nodes.
    fn trace(
        &self,
        Ghost(board): Ghost<&Board>,
        Ghost(piece): Ghost<int>,
        Ghost(mm): Ghost<int>,
        Ghost(mt): Ghost<int>,
        start: Position,
        end: Node,
    ) -> (out: (Vec<Position>, Ghost<Seq<Node>>))
        requires
            table_ok(board, piece, start, mm, mt, self.table@),
            key_ok(end),
            self.table[slot_of(end)].seen,
        ensures
            traced(self.table@, start, end, out.1@),
            out.0@.len() == out.1@.len(),
            forall|k: int| 0 <= k < out.0@.len() ==> #[trigger] out.0@[k] == out.1@[k].pos,
    {
        let first = Node { pos: start, moves: 0, tick_moves: 0 };
        let mut rev: Vec<Position> = Vec::new();
        let ghost mut chain: Seq<Node> = Seq::empty();
        let mut current = end;
        while current != first
            invariant
                table_ok(board, piece, start, mm, mt, self.table@),
                first == origin(start),
                key_ok(current),
                self.table[slot_of(current)].seen,
                rev@.len() == chain.len(),
                forall|k: int| 0 <= k < rev@.len() ==> #[trigger] rev@[k] == chain[k].pos,
                chain.len() == 0 ==> current == end,
                chain.len() > 0 ==> chain[0] == end && self.table[slot_of(chain[chain.len() - 1])].parent
                    == current,
                forall|k: int|
                    0 <= k < chain.len() ==> key_ok(#[trigger] chain[k]) && self.table[slot_of(
                        chain[k],
                    )].seen && chain[k] != first,
                forall|k: int|
                    0 <= k < chain.len() - 1 ==> self.table[slot_of(#[trigger] chain[k])].parent
                        == chain[k + 1],
            decreases current.pos.row - start.row, current.moves,
        {
            proof {
                lemma_entry(board, piece, start, mm, mt, self.table@, current);
                let q = self.table[slot_of(current)].parent;
                lemma_entry(board, piece, start, mm, mt, self.table@, q);
            }
            rev.push(current.pos);
            proof {
                chain = chain.push(current);
            }
            let s = slot(current);
            current = self.table[s].parent;
        }
        rev.push(start);
        proof {
            chain = chain.push(first);
        }
        (rev, Ghost(chain))
    }
}

/// What the table holds of a visited node.
proof fn lemma_entry(
    board: &Board,
    piece: int,
    start: Position,
    mm: int,
    mt: int,
    table: Seq<Entry>,
    n: Node,
)
    requires
        table_ok(board, piece, start, mm, mt, table),
        key_ok(n),
        table[slot_of(n)].seen,
    ensures
        entry_ok(board, piece, start, mm, mt, table, n),
        table.len() == SLOTS,
        0 <= piece < N_PIECES,
        0 <= mm <= MAX_MOVES,
        0 <= mt <= MAX_MOVES_PER_TICK,
        in_table(start),
        table[slot_of(origin(start))].seen,
{
    reveal(table_ok);
}

/// The start is visited, and the limits are within the table.
proof fn lemma_origin(board: &Board, piece: int, start: Position, mm: int, mt: int, table: Seq<Entry>)
    requires
        table_ok(board, piece, start, mm, mt, table),
    ensures
        key_ok(origin(start)),
        table[slot_of(origin(start))].seen,
        table.len() == SLOTS,
        0 <= piece < N_PIECES,
        0 <= mm <= MAX_MOVES,
        0 <= mt <= MAX_MOVES_PER_TICK,
{
    reveal(table_ok);
}

/// What the table holds of a queued node.
proof fn lemma_queued_entry(table: Seq<Entry>, queue: Seq<Node>, i: int)
    requires
        queue_ok(table, queue),
        0 <= i < queue.len(),
    ensures
        key_ok(queue[i]),
        table[slot_of(queue[i])].seen,
        !table[slot_of(queue[i])].done,
{
    reveal(queue_ok);
}

/// What the table holds of a listed landing.
proof fn lemma_listed_entry(board: &Board, piece: int, table: Seq<Entry>, list: Seq<Node>, i: int)
    requires
        destinations_ok(board, piece, table, list),
        0 <= i < list.len(),
    ensures
        key_ok(list[i]),
        table[slot_of(list[i])].seen,
        lands(board, piece, list[i].pos),
        forall|j: int| 0 <= j < list.len() && j != i ==> list[j].pos != list[i].pos,
{
    reveal(destinations_ok);
}

/// A node stays covered when the table comes to hold more visited nodes.
proof fn lemma_covered_grows(before: Seq<Entry>, after: Seq<Entry>, n: Node)
    requires
        before.len() == SLOTS,
        after.len() == SLOTS,
        n.moves <= MAX_MOVES,
        n.tick_moves <= MAX_MOVES_PER_TICK,
        forall|i: int| 0 <= i < SLOTS && before[i].seen ==> (#[trigger] after[i]).seen,
        covered(before, n),
    ensures
        covered(after, n),
{
    let (m, t) = choose|m: int, t: int|
        0 <= m <= n.moves && 0 <= t <= n.tick_moves && #[trigger] seen_at(
            before,
            place_of(n.pos),
            m,
            t,
        );
    let i = slot_at(place_of(n.pos), m, t);
    assert(0 <= i < SLOTS);
    assert(after[i].seen);
    assert(seen_at(after, place_of(n.pos), m, t));
}

/// Once the nodes that the piece reaches from the pending node are
/// covered, nothing is pending.
#[verifier::rlimit(40)]
proof fn lemma_closure_close(board: &Board, piece: int, mm: int, mt: int, table: Seq<Entry>, at: Node)
    requires
        closure_ok(board, piece, mm, mt, table, Some(at)),
        closed_at(board, piece, mm, mt, table, at),
    ensures
        closure_ok(board, piece, mm, mt, table, None),
{
    reveal(closure_ok);
    assert forall|n: Node|
        key_ok(n) && (#[trigger] table[slot_of(n)]).done && Some(n) != None::<Node> implies closed_at(
        board,
        piece,
        mm,
        mt,
        table,
        n,
    ) by {
        if n != at {
            assert(Some(n) != Some(at));
        }
    }
}

#[verifier::rlimit(40)]
proof fn lemma_settle_table(
    board: &Board,
    piece: int,
    start: Position,
    mm: int,
    mt: int,
    before: Seq<Entry>,
    after: Seq<Entry>,
    at: Node,
)
    requires
        table_ok(board, piece, start, mm, mt, before),
        key_ok(at),
        before[slot_of(at)].seen,
        after == before.update(slot_of(at), settled(before[slot_of(at)])),
    ensures
        table_ok(board, piece, start, mm, mt, after),
{
    reveal(table_ok);
    let s = slot_of(at);
    assert forall|n: Node| key_ok(n) && (#[trigger] after[slot_of(n)]).seen implies entry_ok(
        board,
        piece,
        start,
        mm,
        mt,
        after,
        n,
    ) by {
        assert(before[slot_of(n)].seen);
        assert(entry_ok(board, piece, start, mm, mt, before, n));
    }
    assert forall|n: Node| key_ok(n) && (#[trigger] after[slot_of(n)]).done implies after[slot_of(
        n,
    )].seen by {
        if slot_of(n) != s {
            assert(before[slot_of(n)].done);
        }
    }
}

#[verifier::rlimit(40)]
proof fn lemma_settle_queue(
    before: Seq<Entry>,
    after: Seq<Entry>,
    held: Seq<Node>,
    at: int,
    left: Seq<Node>,
)
    requires
        before.len() == SLOTS,
        queue_ok(before, held),
        0 <= at < held.len(),
        after == before.update(slot_of(held[at]), settled(before[slot_of(held[at])])),
        left == held.remove(at),
    ensures
        queue_ok(after, left),
{
    reveal(queue_ok);
    let s = slot_of(held[at]);
    assert(key_ok(held[at]));
    assert forall|i: int| 0 <= i < left.len() implies {
        let n = #[trigger] left[i];
        &&& key_ok(n)
        &&& after[slot_of(n)].seen
        &&& !after[slot_of(n)].done
    } by {
        let k = if i < at {
            i
        } else {
            i + 1
        };
        assert(left[i] == held[k]);
        assert(held[k] != held[at]);
        assert(key_ok(held[k]));
        if slot_of(held[k]) == s {
            lemma_slot_injective(held[k], held[at]);
        }
    }
    assert forall|i: int, j: int| 0 <= i < j < left.len() implies #[trigger] left[i]
        != #[trigger] left[j] by {
        let ki = if i < at {
            i
        } else {
            i + 1
        };
        let kj = if j < at {
            j
        } else {
            j + 1
        };
        assert(left[i] == held[ki] && left[j] == held[kj]);
    }
    assert forall|n: Node|
        key_ok(n) && (#[trigger] after[slot_of(n)]).seen && !after[slot_of(n)].done implies queued(
        left,
        n,
    ) by {
        assert(slot_of(n) != s);
        assert(before[slot_of(n)].seen && !before[slot_of(n)].done);
        assert(queued(held, n));
        let k = choose|k: int| 0 <= k < held.len() && #[trigger] held[k] == n;
        assert(k != at);
        let i = if k < at {
            k
        } else {
            k - 1
        };
        assert(left[i] == held[k]);
    }
}

#[verifier::rlimit(40)]
proof fn lemma_settle_closure(
    board: &Board,
    piece: int,
    mm: int,
    mt: int,
    before: Seq<Entry>,
    after: Seq<Entry>,
    at: Node,
)
    requires
        before.len() == SLOTS,
        0 <= mm <= MAX_MOVES,
        0 <= mt <= MAX_MOVES_PER_TICK,
        key_ok(at),
        closure_ok(board, piece, mm, mt, before, None),
        after == before.update(slot_of(at), settled(before[slot_of(at)])),
    ensures
        closure_ok(board, piece, mm, mt, after, Some(at)),
{
    reveal(closure_ok);
    assert forall|n: Node|
        key_ok(n) && (#[trigger] after[slot_of(n)]).done && Some(n) != Some(at) implies closed_at(
        board,
        piece,
        mm,
        mt,
        after,
        n,
    ) by {
        if slot_of(n) == slot_of(at) {
            lemma_slot_injective(n, at);
        }
        assert(before[slot_of(n)].done);
        assert(closed_at(board, piece, mm, mt, before, n));
        assert forall|q: Position| #[trigger] reaches(board, piece, mm, mt, n, q) implies covered(
            after,
            next_node(n, q),
        ) by {
            assert(covered(before, next_node(n, q)));
            lemma_covered_grows(before, after, next_node(n, q));
        }
    }
}

#[verifier::rlimit(40)]
proof fn lemma_settle_destinations(
    board: &Board,
    piece: int,
    before: Seq<Entry>,
    after: Seq<Entry>,
    at: Node,
    found: Seq<Node>,
    list: Seq<Node>,
)
    requires
        before.len() == SLOTS,
        key_ok(at),
        before[slot_of(at)].seen,
        !before[slot_of(at)].done,
        destinations_ok(board, piece, before, found),
        after == before.update(slot_of(at), settled(before[slot_of(at)])),
        list == if lands(board, piece, at.pos) && !listed(found, at.pos) {
            found.push(at)
        } else {
            found
        },
    ensures
        destinations_ok(board, piece, after, list),
{
    reveal(destinations_ok);
    let s = slot_of(at);
    assert forall|i: int| 0 <= i < list.len() implies {
        let n = #[trigger] list[i];
        &&& key_ok(n)
        &&& after[slot_of(n)].seen
        &&& after[slot_of(n)].done
        &&& lands(board, piece, n.pos)
    } by {
        if i < found.len() {
            assert(list[i] == found[i]);
            assert(before[slot_of(found[i])].done);
        }
    }
    assert forall|i: int, j: int| 0 <= i < j < list.len() implies (#[trigger] list[i]).pos
        != (#[trigger] list[j]).pos by {
        assert(list[i] == found[i]);
        if j < found.len() {
            assert(list[j] == found[j]);
        } else {
            assert(found[i].pos != at.pos);
        }
    }
    assert forall|n: Node|
        key_ok(n) && (#[trigger] after[slot_of(n)]).done && lands(board, piece, n.pos) implies listed(
        list,
        n.pos,
    ) by {
        if slot_of(n) == s {
            lemma_slot_injective(n, at);
            if listed(found, at.pos) {
                let k = choose|k: int| 0 <= k < found.len() && (#[trigger] found[k]).pos == at.pos;
                assert(list[k].pos == n.pos);
            } else {
                assert(list[list.len() - 1].pos == n.pos);
            }
        } else {
            assert(before[slot_of(n)].done);
            assert(listed(found, n.pos));
            let k = choose|k: int| 0 <= k < found.len() && (#[trigger] found[k]).pos == n.pos;
            assert(list[k].pos == n.pos);
        }
    }
}

#[verifier::rlimit(40)]
proof fn lemma_visit_table(
    board: &Board,
    piece: int,
    start: Position,
    mm: int,
    mt: int,
    before: Seq<Entry>,
    after: Seq<Entry>,
    from: Node,
    next: Node,
)
    requires
        table_ok(board, piece, start, mm, mt, before),
        key_ok(next),
        key_ok(from),
        before[slot_of(from)].seen,
        !before[slot_of(next)].seen,
        fits(board, piece, next.pos),
        is_step(piece, from.pos, next.pos),
        next == next_node(from, next.pos),
        next.moves <= mm,
        next.tick_moves <= mt,
        after.len() == before.len(),
        forall|i: int| 0 <= i < SLOTS && i != slot_of(next) ==> after[i] == before[i],
        after[slot_of(next)].seen,
        !after[slot_of(next)].done,
        after[slot_of(next)].parent == from,
    ensures
        table_ok(board, piece, start, mm, mt, after),
{
    reveal(table_ok);
    let s = slot_of(next);
    assert(entry_ok(board, piece, start, mm, mt, before, from));
    assert forall|n: Node| key_ok(n) && (#[trigger] after[slot_of(n)]).seen implies entry_ok(
        board,
        piece,
        start,
        mm,
        mt,
        after,
        n,
    ) by {
        if slot_of(n) == s {
            lemma_slot_injective(n, next);
            assert(after[slot_of(from)] == before[slot_of(from)]);
        } else {
            assert(before[slot_of(n)].seen);
            assert(entry_ok(board, piece, start, mm, mt, before, n));
            if n != origin(start) {
                let q = before[slot_of(n)].parent;
                assert(before[slot_of(q)].seen);
                assert(slot_of(q) != s);
            }
        }
    }
    assert forall|n: Node| key_ok(n) && (#[trigger] after[slot_of(n)]).done implies after[slot_of(
        n,
    )].seen by {
        if slot_of(n) != s {
            assert(before[slot_of(n)].done);
        }
    }
}

#[verifier::rlimit(40)]
proof fn lemma_visit_queue(
    before: Seq<Entry>,
    after: Seq<Entry>,
    held: Seq<Node>,
    lined: Seq<Node>,
    next: Node,
)
    requires
        before.len() == SLOTS,
        after.len() == SLOTS,
        queue_ok(before, held),
        key_ok(next),
        !before[slot_of(next)].seen,
        forall|i: int| 0 <= i < SLOTS && i != slot_of(next) ==> after[i] == before[i],
        after[slot_of(next)].seen,
        !after[slot_of(next)].done,
        lined == held.push(next),
    ensures
        queue_ok(after, lined),
{
    reveal(queue_ok);
    let s = slot_of(next);
    assert forall|i: int| 0 <= i < lined.len() implies {
        let n = #[trigger] lined[i];
        &&& key_ok(n)
        &&& after[slot_of(n)].seen
        &&& !after[slot_of(n)].done
    } by {
        if i < held.len() {
            assert(lined[i] == held[i]);
            assert(before[slot_of(held[i])].seen);
        }
    }
    assert forall|i: int, j: int| 0 <= i < j < lined.len() implies #[trigger] lined[i]
        != #[trigger] lined[j] by {
        assert(lined[i] == held[i]);
        if j < held.len() {
            assert(lined[j] == held[j]);
        } else {
            assert(before[slot_of(held[i])].seen);
        }
    }
    assert forall|n: Node|
        key_ok(n) && (#[trigger] after[slot_of(n)]).seen && !after[slot_of(n)].done implies queued(
        lined,
        n,
    ) by {
        if slot_of(n) == s {
            lemma_slot_injective(n, next);
            assert(lined[held.len() as int] == n);
        } else {
            assert(before[slot_of(n)].seen && !before[slot_of(n)].done);
            assert(queued(held, n));
            let k = choose|k: int| 0 <= k < held.len() && #[trigger] held[k] == n;
            assert(lined[k] == held[k]);
        }
    }
}

#[verifier::rlimit(40)]
proof fn lemma_visit_rest(
    board: &Board,
    piece: int,
    mm: int,
    mt: int,
    before: Seq<Entry>,
    after: Seq<Entry>,
    found: Seq<Node>,
    pending: Option<Node>,
    next: Node,
)
    requires
        before.len() == SLOTS,
        after.len() == SLOTS,
        0 <= mm <= MAX_MOVES,
        0 <= mt <= MAX_MOVES_PER_TICK,
        key_ok(next),
        !before[slot_of(next)].seen,
        !before[slot_of(next)].done,
        forall|i: int| 0 <= i < SLOTS && i != slot_of(next) ==> after[i] == before[i],
        after[slot_of(next)].seen,
        !after[slot_of(next)].done,
        destinations_ok(board, piece, before, found),
        closure_ok(board, piece, mm, mt, before, pending),
    ensures
        destinations_ok(board, piece, after, found),
        closure_ok(board, piece, mm, mt, after, pending),
        forall|n: Node|
            key_ok(n) && (#[trigger] before[slot_of(n)]).seen ==> after[slot_of(n)] == before[slot_of(
                n,
            )],
        forall|n: Node| key_ok(n) ==> (#[trigger] after[slot_of(n)]).done == before[slot_of(n)].done,
{
    reveal(destinations_ok);
    reveal(closure_ok);
    let s = slot_of(next);
    assert forall|i: int| 0 <= i < found.len() implies {
        let n = #[trigger] found[i];
        &&& key_ok(n)
        &&& after[slot_of(n)].seen
        &&& after[slot_of(n)].done
        &&& lands(board, piece, n.pos)
    } by {
        assert(before[slot_of(found[i])].seen);
    }
    assert forall|n: Node|
        key_ok(n) && (#[trigger] after[slot_of(n)]).done && lands(board, piece, n.pos) implies listed(
        found,
        n.pos,
    ) by {
        assert(before[slot_of(n)].done);
    }
    assert forall|n: Node|
        key_ok(n) && (#[trigger] after[slot_of(n)]).done && Some(n) != pending implies closed_at(
        board,
        piece,
        mm,
        mt,
        after,
        n,
    ) by {
        assert(before[slot_of(n)].done);
        assert(closed_at(board, piece, mm, mt, before, n));
        assert forall|q: Position| #[trigger] reaches(board, piece, mm, mt, n, q) implies covered(
            after,
            next_node(n, q),
        ) by {
            assert(covered(before, next_node(n, q)));
            lemma_covered_grows(before, after, next_node(n, q));
        }
    }
}

/// Whether `chain` leads from `end` back to the start over the nodes that
/// the table names as the ones before.
spec fn traced(table: Seq<Entry>, start: Position, end: Node, chain: Seq<Node>) -> bool {
    &&& chain.len() > 0
    &&& chain[0] == end
    &&& chain[chain.len() - 1] == origin(start)
    &&& forall|k: int|
        0 <= k < chain.len() ==> key_ok(#[trigger] chain[k]) && table[slot_of(chain[k])].seen
    &&& forall|k: int|
        0 <= k < chain.len() - 1 ==> (#[trigger] chain[k]) != origin(start) && table[slot_of(
            chain[k],
        )].parent == chain[k + 1]
}

/// Along a traced way the nodes have counted the inputs as the walk makes
/// them.
#[verifier::rlimit(40)]
proof fn lemma_trace_counts(
    board: &Board,
    piece: int,
    start: Position,
    mm: int,
    mt: int,
    table: Seq<Entry>,
    nodes: Seq<Node>,
    walk: Seq<Position>,
    k: int,
)
    requires
        table_ok(board, piece, start, mm, mt, table),
        nodes.len() > 0,
        walk.len() == nodes.len(),
        forall|i: int| 0 <= i < nodes.len() ==> #[trigger] walk[i] == nodes[i].pos,
        nodes[0] == origin(start),
        forall|i: int| 0 <= i < nodes.len() ==> key_ok(#[trigger] nodes[i]) && table[slot_of(nodes[i])].seen,
        forall|i: int|
            1 <= i < nodes.len() ==> (#[trigger] nodes[i]) != origin(start) && table[slot_of(
                nodes[i],
            )].parent == nodes[i - 1],
        0 <= k < nodes.len(),
    ensures
        nodes[k].tick_moves == lateral_run(walk, k),
        nodes[k].moves == lateral_total(walk, k),
        lateral_run(walk, k) <= mt,
        lateral_total(walk, k) <= mm,
    decreases k,
{
    assert(key_ok(nodes[k]) && table[slot_of(nodes[k])].seen);
    lemma_entry(board, piece, start, mm, mt, table, nodes[k]);
    if k > 0 {
        lemma_trace_counts(board, piece, start, mm, mt, table, nodes, walk, k - 1);
        assert(nodes[k] != origin(start));
        assert(walk[k] == nodes[k].pos);
        assert(walk[k - 1] == nodes[k - 1].pos);
    }
}

/// A traced way, read from the start, is a walk of the piece that keeps
/// the limits on input.
#[verifier::rlimit(40)]
proof fn lemma_trace_walk(
    board: &Board,
    piece: int,
    level: Option<u64>,
    table: Seq<Entry>,
    end: Node,
    chain: Seq<Node>,
    walk: Seq<Position>,
)
    requires
        table_ok(
            board,
            piece,
            spawn_position(piece),
            max_moves_at(level),
            max_tick_moves_at(level),
            table,
        ),
        traced(table, spawn_position(piece), end, chain),
        walk.len() == chain.len(),
        forall|i: int| 0 <= i < chain.len() ==> #[trigger] walk[i] == chain[chain.len() - 1 - i].pos,
    ensures
        is_walk(board, piece, walk),
        within_caps(walk, level),
        walk.last() == end.pos,
{
    let start = spawn_position(piece);
    let mm = max_moves_at(level);
    let mt = max_tick_moves_at(level);
    let n = chain.len() as int;
    let nodes = Seq::new(chain.len(), |i: int| chain[n - 1 - i]);
    assert(walk[0] == chain[n - 1].pos);
    assert(walk[n - 1] == chain[0].pos);
    assert forall|i: int| 0 <= i < nodes.len() implies #[trigger] walk[i] == nodes[i].pos by {}
    assert forall|i: int| 0 <= i < nodes.len() implies key_ok(#[trigger] nodes[i]) && table[slot_of(
        nodes[i],
    )].seen by {
        assert(key_ok(chain[n - 1 - i]));
    }
    assert forall|i: int| 1 <= i < nodes.len() implies (#[trigger] nodes[i]) != origin(start)
        && table[slot_of(nodes[i])].parent == nodes[i - 1] by {
        let k = n - 1 - i;
        assert(chain[k] != origin(start) && table[slot_of(chain[k])].parent == chain[k + 1]);
    }
    assert forall|i: int| 0 <= i < walk.len() implies fits(board, piece, #[trigger] walk[i]) by {
        lemma_entry(board, piece, start, mm, mt, table, nodes[i]);
    }
    assert forall|i: int| 0 <= i < walk.len() - 1 implies is_step(
        piece,
        walk[i],
        #[trigger] walk[i + 1],
    ) by {
        let p = nodes[i + 1];
        assert(p != origin(start) && table[slot_of(p)].parent == nodes[i]);
        lemma_entry(board, piece, start, mm, mt, table, p);
    }
    assert forall|k: int| 0 <= k < walk.len() implies lateral_run(walk, k) <= mt by {
        lemma_trace_counts(board, piece, start, mm, mt, table, nodes, walk, k);
    }
    lemma_trace_counts(board, piece, start, mm, mt, table, nodes, walk, n - 1);
}

/// With an empty queue every visited node is done.
proof fn lemma_drained(table: Seq<Entry>, queue: Seq<Node>, n: Node)
    requires
        queue_ok(table, queue),
        queue.len() == 0,
        key_ok(n),
        table[slot_of(n)].seen,
    ensures
        table[slot_of(n)].done,
{
    reveal(queue_ok);
    if !table[slot_of(n)].done {
        assert(queued(queue, n));
    }
}

/// A landing that is done is on the list.
proof fn lemma_landing_listed(board: &Board, piece: int, table: Seq<Entry>, list: Seq<Node>, n: Node)
    requires
        destinations_ok(board, piece, table, list),
        key_ok(n),
        table[slot_of(n)].done,
        lands(board, piece, n.pos),
    ensures
        listed(list, n.pos),
{
    reveal(destinations_ok);
}

/// The nodes that the piece reaches from a node that is done are covered.
proof fn lemma_closed(board: &Board, piece: int, mm: int, mt: int, table: Seq<Entry>, n: Node)
    requires
        closure_ok(board, piece, mm, mt, table, None),
        key_ok(n),
        table[slot_of(n)].done,
    ensures
        closed_at(board, piece, mm, mt, table, n),
{
    reveal(closure_ok);
}

/// The rows of a walk do not rise, and none lies above the first.
proof fn lemma_walk_rows(board: &Board, piece: int, walk: Seq<Position>, k: int)
    requires
        is_walk(board, piece, walk),
        0 <= k < walk.len(),
    ensures
        walk[k].row >= walk[0].row,
    decreases k,
{
    if k > 0 {
        lemma_walk_rows(board, piece, walk, k - 1);
        assert(is_step(piece, walk[k - 1], walk[k - 1 + 1]));
    }
}

/// The inputs of a walk up to a position are no more than those of the
/// whole walk.
proof fn lemma_total_grows(walk: Seq<Position>, k: int, n: int)
    requires
        0 <= k <= n,
    ensures
        lateral_total(walk, k) <= lateral_total(walk, n),
        0 <= lateral_total(walk, k),
        0 <= lateral_run(walk, k),
    decreases n,
{
    if k > 0 {
        lemma_total_grows(walk, k - 1, k - 1);
    }
    if k < n {
        lemma_total_grows(walk, k, n - 1);
    }
}

/// When the queue is empty, every position of a walk that keeps the
/// limits is covered with the inputs that the walk has made.
#[verifier::rlimit(40)]
proof fn lemma_walk_covered(
    board: &Board,
    piece: int,
    level: Option<u64>,
    search: &Search,
    walk: Seq<Position>,
    k: int,
)
    requires
        search.ok(
            board,
            piece,
            spawn_position(piece),
            max_moves_at(level),
            max_tick_moves_at(level),
            None,
        ),
        search.queue.len() == 0,
        is_walk(board, piece, walk),
        within_caps(walk, level),
        0 <= k < walk.len(),
    ensures
        covered(
            search.table@,
            Node {
                pos: walk[k],
                moves: lateral_total(walk, k) as u64,
                tick_moves: lateral_run(walk, k) as u64,
            },
        ),
        lateral_total(walk, k) <= max_moves_at(level),
        lateral_run(walk, k) <= max_tick_moves_at(level),
    decreases k,
{
    let start = spawn_position(piece);
    let mm = max_moves_at(level);
    let mt = max_tick_moves_at(level);
    let table = search.table@;
    lemma_origin(board, piece, start, mm, mt, table);
    lemma_total_grows(walk, k, walk.len() - 1);
    lemma_walk_rows(board, piece, walk, k);
    assert(fits(board, piece, walk[k]));
    lemma_fits_bounds(board, piece, walk[k]);
    let target = Node {
        pos: walk[k],
        moves: lateral_total(walk, k) as u64,
        tick_moves: lateral_run(walk, k) as u64,
    };
    assert(walk[0] == start);
    assert(walk[k].row >= -2);
    assert(in_table(target.pos));
    assert(0 <= lateral_total(walk, k) <= mm);
    assert(0 <= lateral_run(walk, k) <= mt);
    assert(target.moves == lateral_total(walk, k) && target.tick_moves == lateral_run(walk, k));
    if k == 0 {
        assert(table[slot_of(origin(start))].seen);
        assert(seen_at(table, place_of(start), 0, 0));
        assert(0 <= 0 <= target.moves && 0 <= 0 <= target.tick_moves && seen_at(
            table,
            place_of(target.pos),
            0,
            0,
        ));
    } else {
        lemma_walk_covered(board, piece, level, search, walk, k - 1);
        lemma_total_grows(walk, k - 1, k - 1);
        lemma_walk_rows(board, piece, walk, k - 1);
        assert(fits(board, piece, walk[k - 1]));
        lemma_fits_bounds(board, piece, walk[k - 1]);
        let before = Node {
            pos: walk[k - 1],
            moves: lateral_total(walk, k - 1) as u64,
            tick_moves: lateral_run(walk, k - 1) as u64,
        };
        assert(before.moves == lateral_total(walk, k - 1) && before.tick_moves == lateral_run(
            walk,
            k - 1,
        ));
        let (m, t) = choose|m: int, t: int|
            0 <= m <= before.moves && 0 <= t <= before.tick_moves && #[trigger] seen_at(
                table,
                place_of(before.pos),
                m,
                t,
            );
        let near = Node { pos: walk[k - 1], moves: m as u64, tick_moves: t as u64 };
        assert(key_ok(near));
        assert(slot_of(near) == slot_at(place_of(before.pos), m, t));
        assert(table[slot_of(near)].seen);
        lemma_drained(table, search.queue@, near);
        lemma_closed(board, piece, mm, mt, table, near);
        assert(is_step(piece, walk[k - 1], walk[k - 1 + 1]));
        let same_row = walk[k].row == walk[k - 1].row;
        assert(lateral_total(walk, k) == lateral_total(walk, k - 1) + if same_row {
            1int
        } else {
            0int
        });
        assert(lateral_run(walk, k) == if same_row {
            lateral_run(walk, k - 1) + 1
        } else {
            0
        });
        assert(reaches(board, piece, mm, mt, near, walk[k]));
        let next = next_node(near, walk[k]);
        assert(next.pos == walk[k]);
        assert(next.moves <= target.moves);
        assert(next.tick_moves <= target.tick_moves);
        assert(covered(table, next));
        let (m2, t2) = choose|m2: int, t2: int|
            0 <= m2 <= next.moves && 0 <= t2 <= next.tick_moves && #[trigger] seen_at(
                table,
                place_of(next.pos),
                m2,
                t2,
            );
        assert(0 <= m2 <= target.moves && 0 <= t2 <= target.tick_moves && seen_at(
            table,
            place_of(target.pos),
            m2,
            t2,
        ));
    }
    assert(covered(table, target));
}

/// When the queue is empty, the positions straight below a node without
/// inputs are visited down to the landing, which is on the list.
#[verifier::rlimit(40)]
proof fn lemma_descent_lands(
    board: &Board,
    piece: int,
    start: Position,
    mm: int,
    mt: int,
    search: &Search,
    p: Position,
)
    requires
        search.ok(board, piece, start, mm, mt, None),
        search.queue.len() == 0,
        in_table(p),
        search.table[slot_of(origin(p))].seen,
    ensures
        listed(search.destinations@, drop_landing(board, piece, p)),
    decreases 20 - p.row,
{
    let n = origin(p);
    let table = search.table@;
    lemma_entry(board, piece, start, mm, mt, table, n);
    lemma_drained(table, search.queue@, n);
    if lands(board, piece, p) {
        lemma_landing_listed(board, piece, table, search.destinations@, n);
    } else {
        lemma_closed(board, piece, mm, mt, table, n);
        assert(reaches(board, piece, mm, mt, n, lowered(p)));
        assert(next_node(n, lowered(p)) == origin(lowered(p)));
        assert(covered(table, origin(lowered(p))));
        let (m, t) = choose|m: int, t: int|
            0 <= m <= 0 && 0 <= t <= 0 && #[trigger] seen_at(table, place_of(lowered(p)), m, t);
        assert(m == 0 && t == 0);
        assert(slot_of(origin(lowered(p))) == slot_at(place_of(lowered(p)), 0, 0));
        assert(seen_at(table, place_of(lowered(p)), 0, 0));
        assert(table[slot_of(origin(lowered(p)))].seen);
        lemma_descent_lands(board, piece, start, mm, mt, search, lowered(p));
    }
}

/// Every position that a piece gets to by one step is one of its
/// successors.
proof fn lemma_step_is_successor(piece: int, from: Position, to: Position)
    requires
        0 <= piece < N_PIECES,
        from.rot < rotation_count(piece),
        in_table(from),
        is_step(piece, from, to),
    ensures
        exists|i: int| 0 <= i < successor_count(piece) && to == #[trigger] successor(piece, from, i),
{
    let n = rotation_count(piece);
    if is_descent(from, to) {
        assert(to == successor(piece, from, 2));
    } else if to.rot == from.rot && to.col == from.col - 1 {
        assert(to == successor(piece, from, 0));
    } else if to.rot == from.rot && to.col == from.col + 1 {
        assert(to == successor(piece, from, 1));
    } else if to.col == from.col && n >= 2 && to.rot == (from.rot + 1) % n {
        assert(to == successor(piece, from, 3));
    } else {
        assert(to == successor(piece, from, 4));
    }
}

/// Whether the path leads the piece over the board from where it spawns
/// to a landing, within the limits on input at the given level, in groups
/// of one row each.
pub open spec fn is_landing_path(board: &Board, piece: Piece, level: Option<u64>, path: &Path) -> bool {
    &&& path.spec_piece() == piece
    &&& is_walk(board, piece@, path.walk())
    &&& lands(board, piece@, path.walk().last())
    &&& within_caps(path.walk(), level)
    &&& grouped_by_row(path.groups())
}

/// Whether the piece can get to the position and land there: there is a
/// walk to it that keeps the limits on input at the given level, and the
/// piece cannot sink from it.
pub open spec fn is_reachable_landing(
    board: &Board,
    piece: int,
    level: Option<u64>,
    pos: Position,
) -> bool {
    exists|walk: Seq<Position>|
        #[trigger] is_walk(board, piece, walk) && within_caps(walk, level) && walk.last() == pos
            && lands(board, piece, pos)
}

/// Whether the paths are what the search for the landings of the piece
/// returns: every path is a landing path, no two end at the same
/// position, and every landing that the piece can reach within the limits
/// on input is the end of a path. So there is a path if and only if the
/// piece fits where it spawns, and then one to the landing straight
/// below.
pub open spec fn is_search_result(
    board: &Board,
    piece: Piece,
    level: Option<u64>,
    paths: Seq<Path>,
) -> bool {
    &&& paths.len() == 0 <==> !fits(board, piece@, spawn_position(piece@))
    &&& fits(board, piece@, spawn_position(piece@)) ==> exists|i: int|
        0 <= i < paths.len() && (#[trigger] paths[i]).walk().last() == drop_landing(
            board,
            piece@,
            spawn_position(piece@),
        )
    &&& forall|i: int| 0 <= i < paths.len() ==> is_landing_path(board, piece, level, #[trigger] &paths[i])
    &&& forall|i: int, j: int|
        0 <= i < j < paths.len() ==> paths[i].walk().last() != paths[j].walk().last()
    &&& forall|pos: Position| #[trigger]
        is_reachable_landing(board, piece@, level, pos) ==> exists|i: int|
            0 <= i < paths.len() && (#[trigger] paths[i]).walk().last() == pos
}

/// The inputs counted along a walk do not change when the walk goes on.
pub proof fn lemma_counts_of_prefix(walk: Seq<Position>, q: Position, k: int)
    requires
        0 <= k < walk.len(),
    ensures
        lateral_run(walk.push(q), k) == lateral_run(walk, k),
        lateral_total(walk.push(q), k) == lateral_total(walk, k),
    decreases k,
{
    if k > 0 {
        lemma_counts_of_prefix(walk, q, k - 1);
        assert(walk.push(q)[k] == walk[k]);
        assert(walk.push(q)[k - 1] == walk[k - 1]);
    }
}

/// The spawn alone is a walk that keeps the limits, where the piece fits
/// there.
pub proof fn lemma_walk_begins(board: &Board, piece: int, level: Option<u64>)
    requires
        fits(board, piece, spawn_position(piece)),
    ensures
        is_walk(board, piece, seq![spawn_position(piece)]),
        within_caps(seq![spawn_position(piece)], level),
{
    let walk = seq![spawn_position(piece)];
    assert(walk[0] == spawn_position(piece));
}

/// A walk that keeps the limits goes on by one step to a position where
/// the piece fits, if the step keeps the limits too: a step in the same
/// row is one input more, in all and in the tick; a step down begins a
/// new tick.
pub proof fn lemma_walk_extends(
    board: &Board,
    piece: int,
    level: Option<u64>,
    walk: Seq<Position>,
    q: Position,
)
    requires
        is_walk(board, piece, walk),
        within_caps(walk, level),
        is_step(piece, walk.last(), q),
        fits(board, piece, q),
        q.row == walk.last().row ==> lateral_run(walk, walk.len() - 1) + 1 <= max_tick_moves_at(
            level,
        ) && lateral_total(walk, walk.len() - 1) + 1 <= max_moves_at(level),
    ensures
        is_walk(board, piece, walk.push(q)),
        within_caps(walk.push(q), level),
        walk.push(q).last() == q,
        lateral_total(walk.push(q), walk.len() as int) == lateral_total(walk, walk.len() - 1) + if q.row
            == walk.last().row {
            1int
        } else {
            0int
        },
        lateral_run(walk.push(q), walk.len() as int) == if q.row == walk.last().row {
            lateral_run(walk, walk.len() - 1) + 1
        } else {
            0
        },
{
    let longer = walk.push(q);
    let n = walk.len() as int;
    assert(longer[0] == walk[0]);
    assert(longer[n] == q);
    assert(longer[n - 1] == walk[n - 1]);
    lemma_counts_of_prefix(walk, q, n - 1);
    assert forall|i: int| 0 <= i < longer.len() implies fits(board, piece, #[trigger] longer[i]) by {
        if i < n {
            assert(longer[i] == walk[i]);
        }
    }
    assert forall|i: int| 0 <= i < longer.len() - 1 implies is_step(
        piece,
        longer[i],
        #[trigger] longer[i + 1],
    ) by {
        if i < n - 1 {
            assert(longer[i] == walk[i] && longer[i + 1] == walk[i + 1]);
        }
    }
    assert forall|k: int| 0 <= k < longer.len() implies lateral_run(longer, k) <= max_tick_moves_at(
        level,
    ) by {
        if k < n {
            lemma_counts_of_prefix(walk, q, k);
        }
    }
}

/// From wherever a walk that keeps the limits leads, the piece can sink
/// to a landing, which the piece so reaches within the limits.
pub proof fn lemma_reachable_drops(
    board: &Board,
    piece: int,
    level: Option<u64>,
    walk: Seq<Position>,
)
    requires
        0 <= piece < N_PIECES,
        is_walk(board, piece, walk),
        within_caps(walk, level),
    ensures
        is_reachable_landing(board, piece, level, drop_landing(board, piece, walk.last())),
    decreases BOARD_HEIGHT - walk.last().row,
{
    let last = walk.last();
    assert(fits(board, piece, walk[walk.len() - 1]));
    lemma_fits_bounds(board, piece, last);
    if lands(board, piece, last) {
        assert(is_walk(board, piece, walk) && within_caps(walk, level) && walk.last() == last);
    } else {
        let q = lowered(last);
        lemma_walk_extends(board, piece, level, walk, q);
        lemma_reachable_drops(board, piece, level, walk.push(q));
    }
}

/// Finds the landings that the piece can reach from where it spawns, and
/// a way to each.
///
/// The search goes by single steps from node to node, a node being a
/// position with the inputs made on the way to it; it visits the nodes in
/// the order of their rows, and lets no way make more inputs than the
/// level allows. A node is left out where the same position is visited
/// already with no more inputs. The paths returned end at exactly the
/// landings that the piece can reach within the limits, one path for
/// each; where the piece does not fit at its spawn, the game is over and
/// the list is empty.
#[verifier::rlimit(40)]
pub fn move_dijkstra(board: &Board, piece: Piece, level: Option<u64>) -> (paths: Vec<Path>)
    ensures
        is_search_result(board, piece, level, paths@),
        paths.len() == 0 <==> !fits(board, piece@, spawn_position(piece@)),
        forall|i: int| 0 <= i < paths.len() ==> is_landing_path(board, piece, level, #[trigger] &paths[i]),
        forall|i: int, j: int|
            0 <= i < j < paths.len() ==> paths[i].walk().last() != paths[j].walk().last(),
        forall|pos: Position| #[trigger]
            is_reachable_landing(board, piece@, level, pos) ==> exists|i: int|
                0 <= i < paths.len() && (#[trigger] paths[i]).walk().last() == pos,
{
    let max_moves = max_moves(level);
    let max_tick_moves = max_tick_moves(level);
    let ghost mm = max_moves as int;
    let ghost mt = max_tick_moves as int;
    let start_move = piece.into_start_move();
    if board.overlaps_move(start_move) {
        proof {
            assert forall|pos: Position| #[trigger]
                is_reachable_landing(board, piece@, level, pos) implies false by {
                let walk = choose|walk: Seq<Position>|
                    #[trigger] is_walk(board, piece@, walk) && within_caps(walk, level)
                        && walk.last() == pos && lands(board, piece@, pos);
                assert(fits(board, piece@, walk[0]));
            }
        }
        return Vec::new();
    }
    let start = start_move.pos;
    let index = piece.index();
    let mut search = Search::begin(board, piece, start, Ghost(mm), Ghost(mt));
    let zero = Position { rot: 0, row: 0, col: 0 };
    let mut candidates: [Position; 5] = [zero;5];
    while search.queue.len() > 0
        invariant
            search.ok(board, piece@, start, mm, mt, None),
            mm == max_moves,
            mt == max_tick_moves,
            max_moves <= MAX_MOVES,
            max_tick_moves <= MAX_MOVES_PER_TICK,
        decreases search.work(),
    {
        let ghost budget = search.work();
        proof {
            lemma_count_seen_bounds(search.table@, SLOTS as int);
        }
        let cur = search.take(board, piece, Ghost(start), Ghost(mm), Ghost(mt));
        proof {
            lemma_entry(board, piece@, start, mm, mt, search.table@, cur);
        }
        let count = next_positions(&mut candidates, cur.pos, piece);
        let mut i: usize = 0;
        while i < count
            invariant
                i <= count,
                count == successor_count(piece@),
                mm == max_moves,
                mt == max_tick_moves,
                max_moves <= MAX_MOVES,
                max_tick_moves <= MAX_MOVES_PER_TICK,
                forall|j: int| 0 <= j < count ==> candidates[j] == successor(piece@, cur.pos, j),
                forall|j: int|
                    0 <= j < count ==> is_step(piece@, cur.pos, #[trigger] successor(piece@, cur.pos, j)),
                search.ok(board, piece@, start, mm, mt, Some(cur)),
                search.work() < budget,
                key_ok(cur),
                search.table[slot_of(cur)].seen,
                search.table[slot_of(cur)].done,
                forall|j: int|
                    0 <= j < i && reaches(
                        board,
                        piece@,
                        mm,
                        mt,
                        cur,
                        #[trigger] successor(piece@, cur.pos, j),
                    ) ==> covered(search.table@, next_node(cur, successor(piece@, cur.pos, j))),
            decreases count - i,
        {
            let next = candidates[i];
            assert(next == successor(piece@, cur.pos, i as int));
            let ghost before = search.table@;
            search.relax(board, piece, Ghost(start), max_moves, max_tick_moves, cur, next);
            proof {
                assert(before[slot_of(cur)].seen);
                assert forall|j: int|
                    0 <= j < i && reaches(
                        board,
                        piece@,
                        mm,
                        mt,
                        cur,
                        #[trigger] successor(piece@, cur.pos, j),
                    ) implies covered(
                    search.table@,
                    next_node(cur, successor(piece@, cur.pos, j)),
                ) by {
                    let q = successor(piece@, cur.pos, j);
                    lemma_fits_bounds(board, piece@, q);
                    assert forall|k: int| 0 <= k < SLOTS && before[k].seen implies (#[trigger] search.table@[k]).seen by {
                        lemma_slot_covers(k);
                        let n = choose|n: Node| key_ok(n) && slot_of(n) == k;
                        assert(search.table@[slot_of(n)] == before[slot_of(n)]);
                    }
                    lemma_covered_grows(before, search.table@, next_node(cur, q));
                }
            }
            i += 1;
        }
        proof {
            assert forall|q: Position| #[trigger] reaches(board, piece@, mm, mt, cur, q) implies covered(
                search.table@,
                next_node(cur, q),
            ) by {
                lemma_step_is_successor(piece@, cur.pos, q);
                let j = choose|j: int|
                    0 <= j < successor_count(piece@) && q == #[trigger] successor(piece@, cur.pos, j);
                assert(reaches(board, piece@, mm, mt, cur, successor(piece@, cur.pos, j)));
            }
            assert(closed_at(board, piece@, mm, mt, search.table@, cur));
            lemma_closure_close(board, piece@, mm, mt, search.table@, cur);
            lemma_count_seen_bounds(search.table@, SLOTS as int);
        }
    }
    proof {
        lemma_fits_bounds(board, piece@, start);
        lemma_origin(board, piece@, start, mm, mt, search.table@);
        lemma_descent_lands(board, piece@, start, mm, mt, &search, start);
    }
    let mut paths: Vec<Path> = Vec::new();
    let mut d: usize = 0;
    while d < search.destinations.len()
        invariant
            d <= search.destinations.len(),
            search.ok(board, piece@, start, mm, mt, None),
            start == spawn_position(piece@),
            mm == max_moves_at(level),
            mt == max_tick_moves_at(level),
            paths.len() == d,
            listed(search.destinations@, drop_landing(board, piece@, start)),
            forall|i: int|
                0 <= i < d ==> is_landing_path(board, piece, level, #[trigger] &paths[i])
                    && paths[i].walk().last() == search.destinations[i].pos,
        decreases search.destinations.len() - d,
    {
        let end = search.destinations[d];
        proof {
            lemma_listed_entry(board, piece@, search.table@, search.destinations@, d as int);
        }
        let (rev, Ghost(chain)) = search.trace(
            Ghost(board),
            Ghost(piece@),
            Ghost(mm),
            Ghost(mt),
            start,
            end,
        );
        let ghost back = rev@;
        let path = Path::from_path_reverse(rev, piece);
        proof {
            assert forall|i: int| 0 <= i < chain.len() implies #[trigger] path.walk()[i] == chain[chain.len()
                - 1 - i].pos by {
                assert(path.walk()[i] == back[back.len() - 1 - i]);
            }
            lemma_trace_walk(board, piece@, level, search.table@, end, chain, path.walk());
        }
        let ghost sofar = paths@;
        paths.push(path);
        proof {
            assert forall|i: int| 0 <= i < d + 1 implies is_landing_path(
                board,
                piece,
                level,
                #[trigger] &paths[i],
            ) && paths[i].walk().last() == search.destinations[i].pos by {
                if i < d {
                    assert(paths[i] == sofar[i]);
                }
            }
        }
        d += 1;
    }
    proof {
        assert forall|i: int, j: int| 0 <= i < j < paths.len() implies paths[i].walk().last()
            != paths[j].walk().last() by {
            lemma_listed_entry(board, piece@, search.table@, search.destinations@, i);
        }
        let straight = drop_landing(board, piece@, start);
        let i = choose|i: int|
            0 <= i < search.destinations@.len() && (#[trigger] search.destinations@[i]).pos
                == straight;
        assert(paths[i].walk().last() == straight);
        assert forall|pos: Position| #[trigger]
            is_reachable_landing(board, piece@, level, pos) implies exists|i: int|
            0 <= i < paths.len() && (#[trigger] paths[i]).walk().last() == pos by {
            let walk = choose|walk: Seq<Position>|
                #[trigger] is_walk(board, piece@, walk) && within_caps(walk, level) && walk.last()
                    == pos && lands(board, piece@, pos);
            let k = walk.len() - 1;
            lemma_walk_covered(board, piece@, level, &search, walk, k);
            lemma_total_grows(walk, k, k);
            lemma_walk_rows(board, piece@, walk, k);
            assert(fits(board, piece@, walk[k]));
            lemma_fits_bounds(board, piece@, walk[k]);
            let last = Node {
                pos: walk[k],
                moves: lateral_total(walk, k) as u64,
                tick_moves: lateral_run(walk, k) as u64,
            };
            let (m, t) = choose|m: int, t: int|
                0 <= m <= last.moves && 0 <= t <= last.tick_moves && #[trigger] seen_at(
                    search.table@,
                    place_of(last.pos),
                    m,
                    t,
                );
            let near = Node { pos: pos, moves: m as u64, tick_moves: t as u64 };
            assert(last.pos == pos);
            assert(last.moves <= max_moves_at(level) && last.tick_moves <= max_tick_moves_at(level));
            assert(key_ok(near));
            assert(slot_of(near) == slot_at(place_of(last.pos), m, t));
            assert(search.table@[slot_of(near)].seen);
            lemma_drained(search.table@, search.queue@, near);
            lemma_landing_listed(board, piece@, search.table@, search.destinations@, near);
            let i = choose|i: int|
                0 <= i < search.destinations@.len() && (#[trigger] search.destinations@[i]).pos
                    == pos;
            assert(paths[i].walk().last() == pos);
        }
    }
    paths
}

/// Every slot of the table is the slot of a node.
proof fn lemma_slot_covers(k: int)
    requires
        0 <= k < SLOTS,
    ensures
        exists|n: Node| key_ok(n) && slot_of(n) == k,
{
    let t = k % 4;
    let rest = k / 4;
    let m = rest % 13;
    let place = rest / 13;
    let col = place % 13;
    let upper = place / 13;
    let row = upper % 22;
    let rot = upper / 22;
    let n = Node {
        pos: Position { rot: rot as usize, row: (row - 2) as isize, col: (col - 3) as isize },
        moves: m as u64,
        tick_moves: t as u64,
    };
    assert(key_ok(n) && slot_of(n) == k);
}

} // verus!
