use vstd::prelude::*;

verus! {

/// Why a value could not be made from what the caller gave.
#[derive(Clone, Copy, Debug, PartialEq, Eq, Structural)]
pub enum Error {
    /// The text is not twenty rows of ten cells.
    InvalidBoardText,
    /// The catalog holds no piece with that index.
    PieceOutOfRange,
    /// The piece has no rotation with that index.
    RotationOutOfRange,
    /// No feature has that name.
    UnknownFeature,
    /// No preset has that name.
    UnknownPreset,
    /// No training criterion has that name.
    UnknownCriterion,
    /// The lists that belong together differ in length.
    LengthMismatch,
    /// The models of the generation are not all evaluated yet.
    GenerationPending,
}

} // verus!
