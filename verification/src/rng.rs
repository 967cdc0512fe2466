use crate::piece::{Piece, N_PIECES};
use rand::Rng;
use vstd::prelude::*;

verus! {

/// Draws a number below `n` with `rand::Rng::random_range`, on the
/// generator of the thread that `rand::rng` hands out. For a range that
/// is not empty the call returns a number of the range; nothing else is
/// claimed of it.
#[verifier::external_body]
pub(crate) fn random_below(n: usize) -> (r: usize)
    requires
        n > 0,
    ensures
        r < n,
{
    rand::rng().random_range(0..n)
}

/// Whether a first roll is thrown away: the roll is the number beyond the
/// pieces, or the piece that came before.
pub open spec fn rerolls(previous: Option<usize>, first: usize) -> bool {
    first == N_PIECES || previous == Some(first)
}

/// Whether a first roll is thrown away: the roll is the number beyond the
/// pieces, or the piece that came before.
pub fn needs_reroll(previous: Option<usize>, first: usize) -> (b: bool)
    ensures
        b == rerolls(previous, first),
{
    if first == N_PIECES {
        return true;
    }
    match previous {
        Some(p) => p == first,
        None => false,
    }
}

/// The piece that two rolls give: the first roll, unless it is thrown
/// away; then the second.
pub fn piece_from_rolls(previous: Option<usize>, first: usize, second: usize) -> (piece: Piece)
    requires
        first <= N_PIECES,
        second < N_PIECES,
    ensures
        piece@ == if rerolls(previous, first) {
            second
        } else {
            first
        },
{
    let index = if needs_reroll(previous, first) {
        second
    } else {
        first
    };
    Piece::at(index)
}

/// Draws the next piece the way the NES game does: one roll among the
/// pieces and one number more; a roll of that number or of the piece that
/// came before is thrown away for a second roll among the pieces, which
/// stands.
pub fn gen_random_piece(previous: Option<usize>) -> (piece: Piece)
    ensures
        0 <= piece@ < N_PIECES,
{
    let first = random_below(N_PIECES + 1);
    if needs_reroll(previous, first) {
        let second = random_below(N_PIECES);
        piece_from_rolls(previous, first, second)
    } else {
        piece_from_rolls(previous, first, 0)
    }
}

} // verus!
