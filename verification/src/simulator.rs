use crate::board::{on_board, Board, BOARD_HEIGHT, BOARD_WIDTH};
use crate::error::Error;
use crate::feature::{lemma_same_value, weighted_sum, Feature, Weight, Weights, WeightsMap};
use crate::moves::{Move, Path};
use crate::piece::{spawn_position, Piece, N_PIECES};
use crate::rng::{gen_random_piece, random_below};
use crate::search::{fits, is_landing_path, is_search_result, lands, move_dijkstra};
use crate::state::{State, Stats};
use vstd::prelude::*;

verus! {

/// How a score stands to the best score so far.
#[derive(Clone, Copy, Debug, PartialEq, Eq, Structural)]
pub enum Verdict {
    /// Higher than every score before.
    Better,
    /// As high as the best score before.
    Tie,
    /// Lower than the best score before.
    Worse,
}

/// Holds a score against the best score so far; without one every score
/// is better.
pub fn judge(best: Option<i128>, score: i128) -> (verdict: Verdict)
    ensures
        verdict == match best {
            None => Verdict::Better,
            Some(b) => if score > b {
                Verdict::Better
            } else if score == b {
                Verdict::Tie
            } else {
                Verdict::Worse
            },
        },
{
    match best {
        None => Verdict::Better,
        Some(b) => if score > b {
            Verdict::Better
        } else if score == b {
            Verdict::Tie
        } else {
            Verdict::Worse
        },
    }
}

/// What the weights give for the state that comes of `state` when the
/// piece of the move comes to rest.
pub open spec fn future_value(state: &State, weights: Seq<(Feature, Weight)>, m: Move) -> int {
    let next = choose|next: State| next.is_future_of(state, m);
    weighted_sum(weights, &next, weights.len() as int)
}

/// The value of the future at a move is the value of any state that is
/// that future.
#[verifier::rlimit(40)]
pub proof fn lemma_future_value(
    state: &State,
    weights: Seq<(Feature, Weight)>,
    m: Move,
    next: &State,
)
    requires
        next.is_future_of(state, m),
    ensures
        weighted_sum(weights, next, weights.len() as int) == future_value(state, weights, m),
{
    let other = choose|other: State| other.is_future_of(state, m);
    State::lemma_future_unique(state, m, next, &other);
    lemma_same_value(weights, next, &other, weights.len() as int);
}

/// Whether `path` is one of the paths, `next` the state that its landing
/// gives, and no landing of the paths gives a state that the weights
/// value more.
pub open spec fn is_best_of(
    state: &State,
    weights: Seq<(Feature, Weight)>,
    paths: Seq<Path>,
    next: &State,
    path: &Path,
) -> bool {
    &&& exists|i: int| 0 <= i < paths.len() && #[trigger] paths[i] == *path
    &&& next.is_future_of(state, path.spec_final_move())
    &&& forall|j: int|
        0 <= j < paths.len() ==> future_value(state, weights, (#[trigger] paths[j]).spec_final_move())
            <= future_value(state, weights, path.spec_final_move())
}

/// The greatest of the first `n` values; for `n >= 1`.
pub open spec fn peak_value(values: Seq<i128>, n: int) -> i128
    decreases n,
{
    if n <= 1 {
        values[0]
    } else if values[n - 1] > peak_value(values, n - 1) {
        values[n - 1]
    } else {
        peak_value(values, n - 1)
    }
}

/// Number of values among the first `n` that are as great as the
/// greatest before them: each of them asks for a draw.
pub open spec fn ties(values: Seq<i128>, n: int) -> int
    decreases n,
{
    if n <= 1 {
        0
    } else {
        ties(values, n - 1) + if values[n - 1] == peak_value(values, n - 1) {
            1int
        } else {
            0int
        }
    }
}

/// The choice among the first `n` values by the given draws: the place of
/// the candidate held, the number of candidates of its value so far, and
/// the number of draws used. A greater value takes the place of the
/// candidate held; a value as great takes it if the next draw is 0, and
/// uses that draw; without a draw left the candidate held stays. Before
/// the first value no candidate is held, which `-1` stands for.
pub open spec fn reservoir(values: Seq<i128>, draws: Seq<usize>, n: int) -> (int, int, int)
    decreases n,
{
    if n <= 0 {
        (-1, 0, 0)
    } else {
        let before = reservoir(values, draws, n - 1);
        let held = before.0;
        if held < 0 || values[n - 1] > values[held] {
            (n - 1, 1, before.2)
        } else if values[n - 1] == values[held] {
            if before.2 < draws.len() && draws[before.2] == 0 {
                (n - 1, before.1 + 1, before.2 + 1)
            } else {
                (held, before.1 + 1, before.2 + 1)
            }
        } else {
            before
        }
    }
}

/// The candidate held is one of the values seen, none of which is
/// greater; as many draws are used as there were ties, and as many
/// candidates of its value are counted as a draw ranges over.
pub proof fn lemma_reservoir(values: Seq<i128>, draws: Seq<usize>, n: int)
    requires
        1 <= n <= values.len(),
    ensures
        0 <= reservoir(values, draws, n).0 < n,
        values[reservoir(values, draws, n).0] == peak_value(values, n),
        forall|j: int| 0 <= j < n ==> #[trigger] values[j] <= values[reservoir(values, draws, n).0],
        reservoir(values, draws, n).2 == ties(values, n),
        1 <= reservoir(values, draws, n).1 <= n,
    decreases n,
{
    if n > 1 {
        lemma_reservoir(values, draws, n - 1);
    } else {
        assert(reservoir(values, draws, 0) == (-1int, 0int, 0int));
    }
    let before = reservoir(values, draws, n - 1);
    assert(reservoir(values, draws, n) == if before.0 < 0 || values[n - 1] > values[before.0] {
        (n - 1, 1int, before.2)
    } else if values[n - 1] == values[before.0] {
        if before.2 < draws.len() && draws[before.2] == 0 {
            (n - 1, before.1 + 1, before.2 + 1)
        } else {
            (before.0, before.1 + 1, before.2 + 1)
        }
    } else {
        before
    });
}

/// Chooses among the values by the given draws: the place of a greatest
/// value, and among several the one that the draws decide; see
/// `reservoir`. Without values there is nothing to choose.
pub fn pick_index(values: &Vec<i128>, draws: &Vec<usize>) -> (chosen: Option<usize>)
    ensures
        chosen is None <==> values.len() == 0,
        chosen matches Some(i) ==> i == reservoir(values@, draws@, values.len() as int).0,
{
    let mut chosen: Option<usize> = None;
    let mut best: Option<i128> = None;
    let mut used: usize = 0;
    let mut i: usize = 0;
    while i < values.len()
        invariant
            i <= values.len(),
            used <= i,
            used == reservoir(values@, draws@, i as int).2,
            i == 0 ==> chosen is None && best is None,
            i > 0 ==> (chosen matches Some(c) && c == reservoir(values@, draws@, i as int).0 && c < i
                && best == Some(values@[c as int])),
        decreases values.len() - i,
    {
        proof {
            if i > 0 {
                lemma_reservoir(values@, draws@, i as int);
            }
        }
        match judge(best, values[i]) {
            Verdict::Better => {
                best = Some(values[i]);
                chosen = Some(i);
            },
            Verdict::Tie => {
                if used < draws.len() && draws[used] == 0 {
                    chosen = Some(i);
                }
                used += 1;
            },
            Verdict::Worse => {},
        }
        i += 1;
    }
    chosen
}

/// Number of candidates held or passed over that are as great as the
/// greatest of the first `n` values, counted from the last value that was
/// greater than all before it.
pub open spec fn level_count(values: Seq<i128>, n: int) -> int
    decreases n,
{
    if n <= 0 {
        0
    } else if n == 1 || values[n - 1] > peak_value(values, n - 1) {
        1
    } else if values[n - 1] == peak_value(values, n - 1) {
        level_count(values, n - 1) + 1
    } else {
        level_count(values, n - 1)
    }
}

/// For each tie among the first `n` values, in their order, the number
/// over which its draw ranges: the candidates of the greatest value so
/// far, the tying one among them.
pub open spec fn tie_rooms(values: Seq<i128>, n: int) -> Seq<int>
    decreases n,
{
    if n <= 1 {
        Seq::empty()
    } else if values[n - 1] == peak_value(values, n - 1) {
        tie_rooms(values, n - 1).push(level_count(values, n))
    } else {
        tie_rooms(values, n - 1)
    }
}

/// Makes the draws by which `pick_index` chooses among the values: one
/// for each value that is as great as the greatest before it, below the
/// number of candidates of that value so far. So the first draw is below
/// 2, and each later one below one more than the draw before it could
/// reach at most.
pub fn tie_draws(values: &Vec<i128>) -> (draws: Vec<usize>)
    ensures
        draws.len() == ties(values@, values.len() as int),
        draws.len() == tie_rooms(values@, values.len() as int).len(),
        forall|j: int|
            0 <= j < draws.len() ==> #[trigger] draws[j] < tie_rooms(
                values@,
                values.len() as int,
            )[j],
        forall|j: int| 0 <= j < draws.len() ==> #[trigger] draws[j] <= j + 1,
{
    let mut draws: Vec<usize> = Vec::new();
    let mut best: Option<i128> = None;
    let mut count: usize = 0;
    let mut i: usize = 0;
    while i < values.len()
        invariant
            i <= values.len(),
            count <= i,
            count <= draws.len() + 1,
            count == level_count(values@, i as int),
            draws.len() == ties(values@, i as int),
            draws.len() == tie_rooms(values@, i as int).len(),
            forall|j: int|
                0 <= j < draws.len() ==> #[trigger] draws[j] < tie_rooms(values@, i as int)[j],
            forall|j: int| 0 <= j < draws.len() ==> #[trigger] draws[j] <= j + 1,
            i == 0 ==> best is None,
            i > 0 ==> best == Some(peak_value(values@, i as int)) && count >= 1,
        decreases values.len() - i,
    {
        let ghost rooms = tie_rooms(values@, i as int);
        match judge(best, values[i]) {
            Verdict::Better => {
                best = Some(values[i]);
                count = 1;
                assert(tie_rooms(values@, i + 1) == rooms);
            },
            Verdict::Tie => {
                count += 1;
                let draw = random_below(count);
                draws.push(draw);
                assert(tie_rooms(values@, i + 1) == rooms.push(count as int));
            },
            Verdict::Worse => {
                assert(tie_rooms(values@, i + 1) == rooms);
            },
        }
        i += 1;
    }
    draws
}

/// Whether `values` holds, for each of the paths, what the weights give
/// for the state that its landing gives.
pub open spec fn are_values_of(
    state: &State,
    weights: Seq<(Feature, Weight)>,
    paths: Seq<Path>,
    values: Seq<i128>,
) -> bool {
    values.len() == paths.len() && forall|i: int|
        0 <= i < paths.len() ==> #[trigger] values[i] == future_value(
            state,
            weights,
            paths[i].spec_final_move(),
        )
}

/// What the weights give for the state that the landing of each path
/// gives.
pub fn landing_values(state: &State, weights: &Weights, paths: &Vec<Path>) -> (values: Vec<i128>)
    requires
        state.wf(),
        state.has_headroom(),
        forall|i: int| 0 <= i < paths.len() ==> (#[trigger] paths[i]).spec_final_move().wf(),
    ensures
        are_values_of(state, weights@, paths@, values@),
{
    let mut values: Vec<i128> = Vec::new();
    let mut i: usize = 0;
    while i < paths.len()
        invariant
            i <= paths.len(),
            state.wf(),
            state.has_headroom(),
            forall|k: int| 0 <= k < paths.len() ==> (#[trigger] paths[k]).spec_final_move().wf(),
            values.len() == i,
            forall|k: int|
                0 <= k < i ==> #[trigger] values[k] == future_value(
                    state,
                    weights@,
                    paths[k].spec_final_move(),
                ),
        decreases paths.len() - i,
    {
        assert(paths[i as int].spec_final_move().wf());
        let m = paths[i].final_move();
        let future = state.future(m);
        let score = weights.evaluate(&future);
        proof {
            lemma_future_value(state, weights@, m, &future);
        }
        values.push(score);
        i += 1;
    }
    values
}

/// Whether `path` is the one of the paths that the draws choose, and
/// `next` the state that its landing gives; see `reservoir`.
pub open spec fn is_choice_by(
    state: &State,
    weights: Seq<(Feature, Weight)>,
    paths: Seq<Path>,
    draws: Seq<usize>,
    next: &State,
    path: &Path,
) -> bool {
    exists|values: Seq<i128>|
        {
            &&& #[trigger] are_values_of(state, weights, paths, values)
            &&& 0 <= reservoir(values, draws, paths.len() as int).0 < paths.len()
            &&& *path == paths[reservoir(values, draws, paths.len() as int).0]
            &&& next.is_future_of(state, path.spec_final_move())
        }
}

/// Takes the path that the draws choose among the values out of the
/// paths, with the state that its landing gives.
fn take_chosen(
    state: &State,
    weights: &Weights,
    paths: Vec<Path>,
    values: &Vec<i128>,
    draws: &Vec<usize>,
) -> (chosen: Option<(State, Path)>)
    requires
        state.wf(),
        state.has_headroom(),
        forall|i: int| 0 <= i < paths.len() ==> (#[trigger] paths[i]).spec_final_move().wf(),
        are_values_of(state, weights@, paths@, values@),
    ensures
        chosen is None <==> paths.len() == 0,
        chosen matches Some((next, path)) ==> is_choice_by(
            state,
            weights@,
            paths@,
            draws@,
            &next,
            &path,
        ) && is_best_of(state, weights@, paths@, &next, &path),
{
    match pick_index(values, draws) {
        Some(i) => {
            let ghost all = paths@;
            proof {
                lemma_reservoir(values@, draws@, values.len() as int);
            }
            let mut paths = paths;
            let path = paths.remove(i);
            assert(path == all[i as int]);
            assert(all[i as int].spec_final_move().wf());
            let next = state.future(path.final_move());
            proof {
                assert(are_values_of(state, weights@, all, values@));
                assert forall|j: int| 0 <= j < all.len() implies future_value(
                    state,
                    weights@,
                    (#[trigger] all[j]).spec_final_move(),
                ) <= future_value(state, weights@, path.spec_final_move()) by {
                    assert(values@[j] <= values@[i as int]);
                }
            }
            Some((next, path))
        },
        None => None,
    }
}

/// Takes, of the given ways, the one that the given draws choose: a way
/// whose landing gives the state that the weights value most, and among
/// several of the same value the one that the draws decide. Returns that
/// state with the way. Without a way there is nothing to take.
pub fn choose_landing_with(state: &State, weights: &Weights, paths: Vec<Path>, draws: &Vec<usize>) -> (chosen:
    Option<(State, Path)>)
    requires
        state.wf(),
        state.has_headroom(),
        forall|i: int| 0 <= i < paths.len() ==> (#[trigger] paths[i]).spec_final_move().wf(),
    ensures
        chosen is None <==> paths.len() == 0,
        chosen matches Some((next, path)) ==> is_choice_by(
            state,
            weights@,
            paths@,
            draws@,
            &next,
            &path,
        ) && is_best_of(state, weights@, paths@, &next, &path),
{
    let values = landing_values(state, weights, &paths);
    take_chosen(state, weights, paths, &values, draws)
}

/// Takes, of the given ways, one whose landing gives the state that the
/// weights value most, and returns that state with the way. Among
/// several of the same value each is taken with the same chance: the
/// draws that decide are made here, one for each tie. Without a way
/// there is nothing to take.
pub fn choose_landing(state: &State, weights: &Weights, paths: Vec<Path>) -> (chosen: Option<
    (State, Path),
>)
    requires
        state.wf(),
        state.has_headroom(),
        forall|i: int| 0 <= i < paths.len() ==> (#[trigger] paths[i]).spec_final_move().wf(),
    ensures
        chosen is None <==> paths.len() == 0,
        chosen matches Some((next, path)) ==> is_best_of(state, weights@, paths@, &next, &path)
            && exists|draws: Seq<usize>| #[trigger]
            is_choice_by(state, weights@, paths@, draws, &next, &path),
{
    let values = landing_values(state, weights, &paths);
    let draws = tie_draws(&values);
    take_chosen(state, weights, paths, &values, &draws)
}

/// A game that plays itself: for each piece it takes the landing whose
/// state the weights value most.
pub struct Simulator {
    state: State,
    weights: Weights,
    current_path: Option<Path>,
    time_pressure: bool,
}

impl Simulator {
    /// The state of the game.
    pub closed spec fn spec_state(&self) -> State {
        self.state
    }

    /// The weights by which the game is played.
    pub closed spec fn spec_weights(&self) -> Weights {
        self.weights
    }

    /// The way of the last piece, if one was placed.
    pub closed spec fn spec_path(&self) -> Option<Path> {
        self.current_path
    }

    /// Whether the level limits the inputs.
    pub closed spec fn spec_time_pressure(&self) -> bool {
        self.time_pressure
    }

    /// The state of the game is well formed.
    pub open spec fn wf(&self) -> bool {
        self.spec_state().wf()
    }

    /// The level by which the search limits the inputs.
    pub open spec fn search_level(&self) -> Option<u64> {
        if self.spec_time_pressure() {
            Some(self.spec_state().spec_stats().level)
        } else {
            None
        }
    }

    /// Whether `after` is this simulator after the piece of the move has
    /// been placed: the move is a landing on the board, the state is the
    /// future of the state at the move, and the way is known.
    pub open spec fn placed(&self, after: &Simulator, m: Move) -> bool {
        &&& fits(&self.spec_state().spec_board(), m.piece@, m.pos)
        &&& lands(&self.spec_state().spec_board(), m.piece@, m.pos)
        &&& after.spec_state().placed_from(&self.spec_state(), m)
        &&& after.spec_state().counted_from(&self.spec_state())
        &&& !after.spec_state().spec_game_over()
        &&& after.spec_path() matches Some(path)
        &&& is_landing_path(&self.spec_state().spec_board(), m.piece, self.search_level(), &path)
        &&& path.walk().last() == m.pos
    }

    /// Whether `after` is this simulator with the game over and nothing
    /// else changed in the state.
    pub open spec fn ended(&self, after: &Simulator) -> bool {
        &&& after.spec_state().spec_game_over()
        &&& after.spec_state().spec_board() == self.spec_state().spec_board()
        &&& after.spec_state().spec_stats() == self.spec_state().spec_stats()
        &&& after.spec_state().spec_delta() == self.spec_state().spec_delta()
    }

    /// Whether the simulator is at the start of a game played by the
    /// given weights: the board is empty, nothing is counted, no piece
    /// was placed, and the level limits the inputs.
    pub open spec fn fresh_with(&self, weights: Seq<(Feature, Weight)>) -> bool {
        &&& self.wf()
        &&& self.spec_weights()@ == weights
        &&& self.spec_time_pressure()
        &&& self.spec_path() is None
        &&& self.spec_state().has_headroom()
        &&& !self.spec_state().spec_game_over()
        &&& self.spec_state().spec_delta() is None
        &&& self.spec_state().spec_stats() == (Stats {
            steps: 0,
            lines: 0,
            score: 0,
            level: 0,
            tetrises: 0,
        })
        &&& forall|r: int, c: int| on_board(r, c) ==> !self.spec_state().spec_board().filled_at(r, c)
    }

    /// Whether `after` holds the choice of this simulator for the piece:
    /// of the landings that the search finds for the piece on the board,
    /// at the level by which the inputs are limited, the way taken leads
    /// to one whose state the weights value most, and among several of
    /// that value to the one that some draws decide; the state is the one
    /// that this landing gives.
    pub open spec fn chose(&self, after: &Simulator, piece: Piece) -> bool {
        exists|paths: Seq<Path>|
            {
                &&& #[trigger] is_search_result(
                    &self.spec_state().spec_board(),
                    piece,
                    self.search_level(),
                    paths,
                )
                &&& is_best_of(
                    &self.spec_state(),
                    self.spec_weights()@,
                    paths,
                    &after.spec_state(),
                    &after.spec_path()->0,
                )
                &&& exists|draws: Seq<usize>| #[trigger]
                    is_choice_by(
                        &self.spec_state(),
                        self.spec_weights()@,
                        paths,
                        draws,
                        &after.spec_state(),
                        &after.spec_path()->0,
                    )
            }
    }

    /// Whether `after` is this simulator one piece later: a piece of the
    /// catalog was placed at the landing that the weights choose for it,
    /// and the weights are as before.
    pub open spec fn advanced(&self, after: &Simulator) -> bool {
        &&& self.wf()
        &&& self.spec_state().has_headroom()
        &&& after.wf()
        &&& after.spec_weights() == self.spec_weights()
        &&& after.spec_time_pressure() == self.spec_time_pressure()
        &&& exists|m: Move| #[trigger] self.placed(after, m)
        &&& exists|piece: Piece| 0 <= piece@ < N_PIECES && #[trigger] self.chose(after, piece)
    }

    /// Whether `after` is this simulator after a piece found no place:
    /// the game is over, and nothing else has changed in the state or
    /// the weights.
    pub open spec fn halted(&self, after: &Simulator) -> bool {
        &&& self.ended(after)
        &&& after.spec_weights() == self.spec_weights()
        &&& after.spec_time_pressure() == self.spec_time_pressure()
        &&& exists|p: int|
            0 <= p < N_PIECES && !(#[trigger] fits(
                &self.spec_state().spec_board(),
                p,
                spawn_position(p),
            ))
    }

    /// Whether `after` is this simulator `n` pieces later, with the level
    /// below `goal` after each piece but the last.
    pub open spec fn climbed(&self, after: &Simulator, n: nat, goal: u64) -> bool
        decreases n,
    {
        if n == 0 {
            *after == *self
        } else {
            exists|mid: Simulator|
                {
                    &&& self.climbed(&mid, (n - 1) as nat, goal)
                    &&& n > 1 ==> mid.spec_state().spec_stats().level < goal
                    &&& #[trigger] mid.advanced(after)
                }
        }
    }

    /// Whether `after` is this simulator after a run to the level `goal`:
    /// pieces were placed, one after the other, until after a piece the
    /// level was `goal` or more, or a piece found no place, which ended
    /// the game, or a counter of the statistics could take no further
    /// piece.
    pub open spec fn ran_to_level(&self, after: &Simulator, goal: u64) -> bool {
        exists|k: nat, last: Simulator|
            {
                &&& #[trigger] self.climbed(&last, k, goal)
                &&& {
                    ||| *after == last && k > 0 && last.spec_state().spec_stats().level >= goal
                    ||| *after == last && !last.spec_state().has_headroom() && (k > 0
                        ==> last.spec_state().spec_stats().level < goal)
                    ||| last.spec_state().has_headroom() && last.halted(after) && (k > 0
                        ==> last.spec_state().spec_stats().level < goal)
                }
            }
    }

    /// Whether `after` is this simulator `n` pieces later: `n` times a
    /// piece was placed, one after the other.
    pub open spec fn played(&self, after: &Simulator, n: nat) -> bool
        decreases n,
    {
        if n == 0 {
            *after == *self
        } else {
            exists|mid: Simulator| self.played(&mid, (n - 1) as nat) && #[trigger] mid.advanced(after)
        }
    }

    /// Whether `after` is this simulator after a run of up to `n` pieces:
    /// some number of pieces was placed, one after the other; it is `n`,
    /// unless before that a piece found no place, which ended the game,
    /// or a counter of the statistics could take no further piece.
    pub open spec fn ran(&self, after: &Simulator, n: nat) -> bool {
        exists|k: nat, last: Simulator|
            {
                &&& k <= n
                &&& #[trigger] self.played(&last, k)
                &&& {
                    ||| *after == last && (k == n || !last.spec_state().has_headroom())
                    ||| k < n && last.spec_state().has_headroom() && last.halted(after)
                }
            }
    }

    /// A fresh game on the empty board, played by the given weights.
    pub fn new_with_weights(weights: Weights) -> (sim: Simulator)
        ensures
            sim.fresh_with(weights@),
            sim.wf(),
            sim.spec_weights()@ == weights@,
            sim.spec_time_pressure(),
            sim.spec_path() is None,
            sim.spec_state().has_headroom(),
            sim.spec_state().spec_stats() == (Stats {
                steps: 0,
                lines: 0,
                score: 0,
                level: 0,
                tetrises: 0,
            }),
    {
        Simulator { state: State::default(), weights, current_path: None, time_pressure: true }
    }

    /// A game that goes on from the given state, played by the given
    /// weights.
    pub fn new_with_state(state: State, weights: Weights) -> (sim: Simulator)
        requires
            state.wf(),
        ensures
            sim.wf(),
            sim.spec_state() == state,
            sim.spec_weights()@ == weights@,
            sim.spec_time_pressure(),
            sim.spec_path() is None,
    {
        Simulator { state, weights, current_path: None, time_pressure: true }
    }

    /// A fresh game on the empty board; every feature weighs nothing.
    pub fn new() -> (sim: Simulator)
        ensures
            sim.wf(),
            sim.spec_time_pressure(),
            sim.spec_path() is None,
            sim.spec_state().has_headroom(),
            sim.spec_state().spec_stats() == (Stats {
                steps: 0,
                lines: 0,
                score: 0,
                level: 0,
                tetrises: 0,
            }),
            sim.spec_weights()@.len() == 6,
            forall|i: int|
                0 <= i < 6 ==> #[trigger] sim.spec_weights()@[i] == (Feature::spec_all()[i], 0i32),
    {
        Simulator::new_with_weights(Weights::default())
    }

    /// A fresh game on the empty board, played by the preset with the
    /// given name. A name that no preset has is refused.
    pub fn new_with_preset(preset: &str) -> (sim: Result<Simulator, Error>)
        ensures
            sim is Ok <==> crate::feature::preset_of(preset@) is Some,
            sim matches Err(e) ==> e == Error::UnknownPreset,
            sim matches Ok(s) ==> s.wf() && Some(s.spec_weights()@) == crate::feature::preset_of(
                preset@,
            ) && s.spec_time_pressure() && s.spec_state().has_headroom(),
    {
        match Weights::from_preset(preset) {
            Ok(weights) => Ok(Simulator::new_with_weights(weights)),
            Err(e) => Err(e),
        }
    }

    /// What the game has counted so far.
    pub fn stats(&self) -> (stats: Stats)
        ensures
            stats == self.spec_state().spec_stats(),
    {
        self.state.stats()
    }

    /// The board of the game.
    pub fn board(&self) -> (board: &Board)
        ensures
            *board == self.spec_state().spec_board(),
    {
        self.state.board()
    }

    /// The state of the game.
    pub fn state(&self) -> (state: &State)
        ensures
            *state == self.spec_state(),
    {
        &self.state
    }

    /// The way of the last piece, if one was placed.
    pub fn path(&self) -> (path: Option<Path>)
        ensures
            path is Some == self.spec_path() is Some,
            path matches Some(p) ==> p.spec_piece() == self.spec_path()->0.spec_piece()
                && p.groups() == self.spec_path()->0.groups(),
    {
        match &self.current_path {
            Some(p) => Some(p.clone()),
            None => None,
        }
    }

    /// The cells of the board, row after row.
    pub fn board_data(&self) -> (data: Vec<u8>)
        ensures
            data.len() == BOARD_HEIGHT * BOARD_WIDTH,
            forall|r: int, c: int|
                on_board(r, c) ==> data[r * 10 + c] == self.spec_state().spec_board().cell_at(
                    r,
                    c,
                )@,
    {
        let board = self.state.board();
        let mut data: Vec<u8> = Vec::new();
        let mut r: usize = 0;
        while r < BOARD_HEIGHT
            invariant
                r <= BOARD_HEIGHT,
                *board == self.spec_state().spec_board(),
                data.len() == r * 10,
                forall|i: int, j: int|
                    0 <= i < r && 0 <= j < BOARD_WIDTH ==> data[i * 10 + j] == board.cell_at(i, j)@,
            decreases BOARD_HEIGHT - r,
        {
            let mut c: usize = 0;
            while c < BOARD_WIDTH
                invariant
                    r < BOARD_HEIGHT,
                    c <= BOARD_WIDTH,
                    data.len() == r * 10 + c,
                    forall|i: int, j: int|
                        0 <= i < r && 0 <= j < BOARD_WIDTH ==> data[i * 10 + j] == board.cell_at(
                            i,
                            j,
                        )@,
                    forall|j: int| 0 <= j < c ==> data[r * 10 + j] == board.cell_at(r as int, j)@,
                decreases BOARD_WIDTH - c,
            {
                data.push(board.get(r, c).inner());
                c += 1;
            }
            r += 1;
        }
        data
    }

    /// Begins a fresh game on the empty board; the weights stay.
    pub fn reset(&mut self)
        ensures
            final(self).wf(),
            final(self).spec_state().has_headroom(),
            final(self).spec_path() is None,
            final(self).spec_weights() == old(self).spec_weights(),
            final(self).spec_time_pressure() == old(self).spec_time_pressure(),
            final(self).spec_state().spec_stats() == (Stats {
                steps: 0,
                lines: 0,
                score: 0,
                level: 0,
                tetrises: 0,
            }),
    {
        self.state = State::default();
        self.current_path = None;
    }

    /// Takes the weights of the list of names from now on. A name that no
    /// feature has is refused, and the weights stay as they are.
    pub fn update_weights(&mut self, weights_map: WeightsMap) -> (done: Result<(), Error>)
        ensures
            final(self).spec_state() == old(self).spec_state(),
            final(self).spec_path() == old(self).spec_path(),
            final(self).spec_time_pressure() == old(self).spec_time_pressure(),
            done is Ok <==> forall|i: int|
                0 <= i < weights_map@.len() ==> crate::feature::Feature::lookup(
                    (#[trigger] weights_map@[i]).0,
                ) is Some,
            done matches Err(e) ==> e == Error::UnknownFeature && final(self).spec_weights() == old(self).spec_weights(),
            done is Ok ==> final(self).spec_weights()@.len() == weights_map@.len() && forall|i: int|
                0 <= i < weights_map@.len() ==> Some((#[trigger] final(self).spec_weights()@[i]).0)
                    == crate::feature::Feature::lookup(weights_map@[i].0) && final(self).spec_weights()@[i].1 == weights_map@[i].1,
    {
        match Weights::from_map(&weights_map) {
            Ok(weights) => {
                self.weights = weights;
                Ok(())
            },
            Err(e) => Err(e),
        }
    }

    /// Sets whether the level limits the inputs.
    pub fn set_time_pressure(&mut self, time_pressure: bool)
        ensures
            final(self).spec_time_pressure() == time_pressure,
            final(self).spec_state() == old(self).spec_state(),
            final(self).spec_path() == old(self).spec_path(),
            final(self).spec_weights() == old(self).spec_weights(),
    {
        self.time_pressure = time_pressure;
    }

    /// Places the given piece: among its landings the one whose state the
    /// weights value most is taken, and among several of the same value
    /// each with the same chance. Where the piece does not fit at its
    /// spawn, the game is over.
    #[verifier::rlimit(40)]
    pub fn step_with(&mut self, piece: Piece) -> (moved: bool)
        requires
            old(self).wf(),
            fits(&old(self).spec_state().spec_board(), piece@, spawn_position(piece@)) ==> old(self).spec_state().has_headroom(),
        ensures
            final(self).wf(),
            final(self).spec_weights() == old(self).spec_weights(),
            final(self).spec_time_pressure() == old(self).spec_time_pressure(),
            moved <==> fits(
                &old(self).spec_state().spec_board(),
                piece@,
                spawn_position(piece@),
            ),
            moved ==> exists|m: Move| m.piece == piece && #[trigger] old(self).placed(final(self), m),
            moved ==> old(self).chose(final(self), piece),
            !moved ==> old(self).ended(final(self)),
    {
        let level = if self.time_pressure {
            Some(self.state.stats().level)
        } else {
            None
        };
        let paths = move_dijkstra(self.state.board(), piece, level);
        if paths.len() == 0 {
            self.state.set_game_over();
            return false;
        }
        let ghost found = paths@;
        proof {
            assert forall|i: int| 0 <= i < paths.len() implies (#[trigger] paths[i]).spec_final_move().wf() by {
                assert(is_landing_path(&self.spec_state().spec_board(), piece, level, &paths[i]));
                assert(fits(
                    &self.spec_state().spec_board(),
                    piece@,
                    paths[i].walk()[paths[i].walk().len() - 1],
                ));
            }
        }
        match choose_landing(&self.state, &self.weights, paths) {
            Some((next, path)) => {
                let ghost taken = path.spec_final_move();
                proof {
                    let i = choose|i: int| 0 <= i < found.len() && #[trigger] found[i] == path;
                    assert(is_landing_path(&self.spec_state().spec_board(), piece, level, &found[i]));
                    assert(fits(
                        &self.spec_state().spec_board(),
                        piece@,
                        path.walk()[path.walk().len() - 1],
                    ));
                }
                self.state = next;
                self.current_path = Some(path);
                assert(old(self).placed(self, taken));
                assert(is_search_result(
                    &old(self).spec_state().spec_board(),
                    piece,
                    old(self).search_level(),
                    found,
                ));
                assert(is_best_of(
                    &old(self).spec_state(),
                    old(self).spec_weights()@,
                    found,
                    &self.spec_state(),
                    &self.spec_path()->0,
                ));
                true
            },
            None => {
                self.state.set_game_over();
                false
            },
        }
    }

    /// Draws the next piece and places it; see `step_with`. Returns
    /// whether a piece was placed; if none was, the game is over.
    pub fn step(&mut self) -> (moved: bool)
        requires
            old(self).wf(),
            old(self).spec_state().has_headroom() || forall|p: int|
                0 <= p < N_PIECES ==> !#[trigger] fits(
                    &old(self).spec_state().spec_board(),
                    p,
                    spawn_position(p),
                ),
        ensures
            final(self).wf(),
            final(self).spec_weights() == old(self).spec_weights(),
            final(self).spec_time_pressure() == old(self).spec_time_pressure(),
            exists|p: int|
                0 <= p < N_PIECES && (moved <==> #[trigger] fits(
                    &old(self).spec_state().spec_board(),
                    p,
                    spawn_position(p),
                )),
            (forall|p: int|
                0 <= p < N_PIECES ==> #[trigger] fits(
                    &old(self).spec_state().spec_board(),
                    p,
                    spawn_position(p),
                )) ==> moved,
            moved ==> exists|m: Move| #[trigger] old(self).placed(final(self), m),
            moved ==> exists|piece: Piece|
                0 <= piece@ < N_PIECES && #[trigger] old(self).chose(final(self), piece),
            moved ==> old(self).advanced(final(self)),
            !moved ==> old(self).ended(final(self)),
            !moved ==> old(self).halted(final(self)),
    {
        let previous = match self.state.delta() {
            Some(d) => Some(d.mv.piece.index()),
            None => None,
        };
        let piece = gen_random_piece(previous);
        let moved = self.step_with(piece);
        proof {
            if moved {
                assert(0 <= piece@ < N_PIECES && old(self).chose(self, piece));
            }
        }
        moved
    }

    /// Plays up to `iterations` pieces; stops when the game is over, or
    /// when a counter of the statistics could take no further piece.
    pub fn run_for(&mut self, iterations: usize)
        requires
            old(self).wf(),
        ensures
            old(self).ran(final(self), iterations as nat),
            final(self).wf(),
            final(self).spec_weights() == old(self).spec_weights(),
            final(self).spec_time_pressure() == old(self).spec_time_pressure(),
            final(self).spec_state().spec_stats().steps <= old(self).spec_state().spec_stats().steps
                + iterations,
            final(self).spec_state().spec_stats().steps >= old(self).spec_state().spec_stats().steps,
            final(self).spec_state().spec_stats().steps == old(self).spec_state().spec_stats().steps
                + iterations || final(self).spec_state().spec_game_over() || !final(self).spec_state().has_headroom(),
    {
        let mut i: usize = 0;
        while i < iterations
            invariant_except_break
                old(self).played(self, i as nat),
            invariant
                i <= iterations,
                self.wf(),
                self.spec_weights() == old(self).spec_weights(),
                self.spec_time_pressure() == old(self).spec_time_pressure(),
                self.spec_state().spec_stats().steps == old(self).spec_state().spec_stats().steps + i,
            ensures
                old(self).ran(self, iterations as nat),
                self.wf(),
                self.spec_weights() == old(self).spec_weights(),
                self.spec_time_pressure() == old(self).spec_time_pressure(),
                self.spec_state().spec_stats().steps <= old(self).spec_state().spec_stats().steps
                    + iterations,
                self.spec_state().spec_stats().steps >= old(self).spec_state().spec_stats().steps,
                self.spec_state().spec_stats().steps == old(self).spec_state().spec_stats().steps
                    + iterations || self.spec_state().spec_game_over()
                    || !self.spec_state().has_headroom(),
            decreases iterations - i,
        {
            let ghost last = *self;
            if !self.state.can_advance() {
                assert(old(self).played(&last, i as nat) && *self == last
                    && !last.spec_state().has_headroom());
                break ;
            }
            if !self.step() {
                assert(old(self).played(&last, i as nat) && last.spec_state().has_headroom()
                    && last.halted(self));
                break ;
            }
            assert(last.advanced(self));
            assert(old(self).played(self, (i + 1) as nat)) by {
                assert(((i + 1) as nat - 1) as nat == i as nat);
                assert(old(self).played(&last, ((i + 1) as nat - 1) as nat) && last.advanced(self));
            }
            i += 1;
        }
    }

    /// Plays until the game is over, or until a counter of the statistics
    /// could take no further piece.
    pub fn run(&mut self)
        requires
            old(self).wf(),
        ensures
            exists|n: nat| #[trigger] old(self).ran(final(self), n),
            final(self).wf(),
            final(self).spec_weights() == old(self).spec_weights(),
            final(self).spec_time_pressure() == old(self).spec_time_pressure(),
            final(self).spec_state().spec_game_over() || !final(self).spec_state().has_headroom(),
            final(self).spec_state().spec_stats().steps >= old(self).spec_state().spec_stats().steps,
    {
        let ghost mut n: nat = 0;
        loop
            invariant_except_break
                old(self).played(self, n),
            invariant
                self.wf(),
                self.spec_weights() == old(self).spec_weights(),
                self.spec_time_pressure() == old(self).spec_time_pressure(),
                self.spec_state().spec_stats().steps >= old(self).spec_state().spec_stats().steps,
            ensures
                exists|n: nat| #[trigger] old(self).ran(self, n),
                self.wf(),
                self.spec_weights() == old(self).spec_weights(),
                self.spec_time_pressure() == old(self).spec_time_pressure(),
                self.spec_state().spec_game_over() || !self.spec_state().has_headroom(),
                self.spec_state().spec_stats().steps >= old(self).spec_state().spec_stats().steps,
            decreases u64::MAX - self.spec_state().spec_stats().steps,
        {
            let ghost last = *self;
            if !self.state.can_advance() {
                assert(old(self).played(&last, n) && *self == last);
                assert(old(self).ran(self, n));
                break ;
            }
            if !self.step() {
                assert(old(self).played(&last, n) && last.halted(self));
                assert(old(self).ran(self, n + 1));
                break ;
            }
            proof {
                assert(old(self).played(self, n + 1)) by {
                    assert(((n + 1) as nat - 1) as nat == n);
                    assert(old(self).played(&last, ((n + 1) as nat - 1) as nat) && last.advanced(
                        self,
                    ));
                }
                n = n + 1;
            }
        }
    }

    /// Plays until a piece has brought the level to `goal` or more, until
    /// the game is over, or until a counter of the statistics could take
    /// no further piece.
    pub fn run_to_level(&mut self, goal: u64)
        requires
            old(self).wf(),
        ensures
            old(self).ran_to_level(final(self), goal),
            final(self).wf(),
            final(self).spec_weights() == old(self).spec_weights(),
            final(self).spec_time_pressure() == old(self).spec_time_pressure(),
    {
        let ghost mut n: nat = 0;
        loop
            invariant_except_break
                old(self).climbed(self, n, goal),
                n > 0 ==> self.spec_state().spec_stats().level < goal,
            invariant
                self.wf(),
                self.spec_weights() == old(self).spec_weights(),
                self.spec_time_pressure() == old(self).spec_time_pressure(),
            ensures
                old(self).ran_to_level(self, goal),
                self.wf(),
                self.spec_weights() == old(self).spec_weights(),
                self.spec_time_pressure() == old(self).spec_time_pressure(),
            decreases u64::MAX - self.spec_state().spec_stats().steps,
        {
            let ghost last = *self;
            if !self.state.can_advance() {
                assert(old(self).climbed(&last, n, goal) && *self == last);
                break ;
            }
            if !self.step() {
                assert(old(self).climbed(&last, n, goal) && last.halted(self));
                break ;
            }
            proof {
                assert(old(self).climbed(self, n + 1, goal)) by {
                    assert(((n + 1) as nat - 1) as nat == n);
                    assert(old(self).climbed(&last, ((n + 1) as nat - 1) as nat, goal)
                        && last.advanced(self));
                }
                n = n + 1;
            }
            if self.state.stats().level >= goal {
                assert(old(self).climbed(self, n, goal));
                break ;
            }
        }
    }
}

impl Default for Simulator {
    fn default() -> (sim: Simulator)
        ensures
            sim.wf(),
            sim.spec_time_pressure(),
            sim.spec_path() is None,
            sim.spec_state().has_headroom(),
    {
        Simulator::new()
    }
}

} // verus!
