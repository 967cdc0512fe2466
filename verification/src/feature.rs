use crate::board::{Board, BOARD_HEIGHT, BOARD_WIDTH};
use crate::error::Error;
use crate::piece::pattern_size;
use crate::state::{Delta, State};
use vstd::prelude::*;
use vstd::string::StringExecFns;

verus! {

/// Number of places among the first `n` of row `r` where a cell and its
/// right neighbour differ in being filled.
pub open spec fn row_changes(board: &Board, r: int, n: int) -> int
    decreases n,
{
    if n <= 0 {
        0
    } else {
        row_changes(board, r, n - 1) + if board.filled_at(r, n - 1) != board.filled_at(r, n) {
            1int
        } else {
            0int
        }
    }
}

/// Number of places in the first `rows` rows where a cell and its right
/// neighbour differ in being filled.
pub open spec fn row_trans_of(board: &Board, rows: int) -> int
    decreases rows,
{
    if rows <= 0 {
        0
    } else {
        row_trans_of(board, rows - 1) + row_changes(board, rows - 1, BOARD_WIDTH - 1)
    }
}

/// Number of places among the first `n` of column `c` where a cell and
/// the one below it differ in being filled.
pub open spec fn col_changes(board: &Board, c: int, n: int) -> int
    decreases n,
{
    if n <= 0 {
        0
    } else {
        col_changes(board, c, n - 1) + if board.filled_at(n - 1, c) != board.filled_at(n, c) {
            1int
        } else {
            0int
        }
    }
}

/// Number of places in the first `cols` columns where a cell and the one
/// below it differ in being filled.
pub open spec fn col_trans_of(board: &Board, cols: int) -> int
    decreases cols,
{
    if cols <= 0 {
        0
    } else {
        col_trans_of(board, cols - 1) + col_changes(board, cols - 1, BOARD_HEIGHT - 1)
    }
}

/// Number of empty cells among the first `n` of column `c` that lie at
/// or below the top of the column.
pub open spec fn col_pits(board: &Board, c: int, n: int) -> int
    decreases n,
{
    if n <= 0 {
        0
    } else {
        col_pits(board, c, n - 1) + if n - 1 >= BOARD_HEIGHT - board.spec_height(c)
            && !board.filled_at(n - 1, c) {
            1int
        } else {
            0int
        }
    }
}

/// Number of empty cells in the first `cols` columns that lie below the
/// top of their column.
pub open spec fn pits_of(board: &Board, cols: int) -> int
    decreases cols,
{
    if cols <= 0 {
        0
    } else {
        pits_of(board, cols - 1) + col_pits(board, cols - 1, BOARD_HEIGHT as int)
    }
}

/// By how much column `c` is lower than its lower neighbour; a column at
/// the side has one neighbour only. Zero where it is not lower.
pub open spec fn well_depth(board: &Board, c: int) -> int {
    let h = board.spec_height(c);
    let rim = if c == 0 {
        board.spec_height(1)
    } else if c == BOARD_WIDTH - 1 {
        board.spec_height(BOARD_WIDTH - 2)
    } else if board.spec_height(c - 1) <= board.spec_height(c + 1) {
        board.spec_height(c - 1)
    } else {
        board.spec_height(c + 1)
    };
    if rim > h {
        rim - h
    } else {
        0
    }
}

/// Sum over the first `cols` columns of `1 + 2 + .. + w`, where `w` is the
/// depth of the well in the column.
pub open spec fn cuml_wells_of(board: &Board, cols: int) -> int
    decreases cols,
{
    if cols <= 0 {
        0
    } else {
        let w = well_depth(board, cols - 1);
        cuml_wells_of(board, cols - 1) + w * (w + 1) / 2
    }
}

/// How high above the floor the lower edge of the matrix of the last
/// placed piece lies; 0 where nothing was placed.
pub open spec fn landing_height_of(delta: Option<Delta>) -> int {
    match delta {
        Some(d) => {
            let low = d.mv.pos.row + pattern_size(d.mv.piece@);
            if low >= BOARD_HEIGHT {
                0
            } else {
                BOARD_HEIGHT - low
            }
        },
        None => 0,
    }
}

/// How many cells of the last placed piece were cleared with it; 0 where
/// nothing was placed.
pub open spec fn eroded_cells_of(delta: Option<Delta>) -> int {
    match delta {
        Some(d) => d.eroded as int,
        None => 0,
    }
}

/// The number of times that two adjacent cells in the same row mismatch.
pub fn row_trans(state: &State) -> (n: u64)
    ensures
        n == row_trans_of(&state.spec_board(), BOARD_HEIGHT as int),
        n <= 180,
{
    let board = state.board();
    let mut sum: u64 = 0;
    let mut r: usize = 0;
    while r < BOARD_HEIGHT
        invariant
            r <= BOARD_HEIGHT,
            *board == state.spec_board(),
            sum == row_trans_of(board, r as int),
            sum <= 9 * r,
        decreases BOARD_HEIGHT - r,
    {
        let mut c: usize = 0;
        let mut line: u64 = 0;
        while c < BOARD_WIDTH - 1
            invariant
                r < BOARD_HEIGHT,
                c <= BOARD_WIDTH - 1,
                line == row_changes(board, r as int, c as int),
                line <= c,
            decreases BOARD_WIDTH - 1 - c,
        {
            if board.get(r, c).filled() != board.get(r, c + 1).filled() {
                line += 1;
            }
            c += 1;
        }
        sum += line;
        r += 1;
    }
    sum
}

/// The number of times that two adjacent cells in the same column
/// mismatch.
pub fn col_trans(state: &State) -> (n: u64)
    ensures
        n == col_trans_of(&state.spec_board(), BOARD_WIDTH as int),
        n <= 190,
{
    let board = state.board();
    let mut sum: u64 = 0;
    let mut c: usize = 0;
    while c < BOARD_WIDTH
        invariant
            c <= BOARD_WIDTH,
            *board == state.spec_board(),
            sum == col_trans_of(board, c as int),
            sum <= 19 * c,
        decreases BOARD_WIDTH - c,
    {
        let mut r: usize = 0;
        let mut line: u64 = 0;
        while r < BOARD_HEIGHT - 1
            invariant
                c < BOARD_WIDTH,
                r <= BOARD_HEIGHT - 1,
                line == col_changes(board, c as int, r as int),
                line <= r,
            decreases BOARD_HEIGHT - 1 - r,
        {
            if board.get(r, c).filled() != board.get(r + 1, c).filled() {
                line += 1;
            }
            r += 1;
        }
        sum += line;
        c += 1;
    }
    sum
}

/// The depth of each column with respect to its adjacent columns. If a
/// column is not shorter than both of its neighbours, it has a value of
/// 0. Otherwise, its value is how much shorter it is than its shortest
/// neighbour.
pub fn wells(state: &State) -> (depths: [u64; 10])
    requires
        state.spec_board().wf(),
    ensures
        forall|c: int|
            0 <= c < BOARD_WIDTH ==> #[trigger] depths[c] == well_depth(&state.spec_board(), c)
                && depths[c] <= BOARD_HEIGHT,
{
    let board = state.board();
    let mut depths: [u64; 10] = [0;10];
    let mut c: usize = 0;
    while c < BOARD_WIDTH
        invariant
            c <= BOARD_WIDTH,
            *board == state.spec_board(),
            board.wf(),
            forall|j: int|
                0 <= j < c ==> #[trigger] depths[j] == well_depth(board, j) && depths[j]
                    <= BOARD_HEIGHT,
        decreases BOARD_WIDTH - c,
    {
        proof {
            assert(board.is_height_of(c as int, board.spec_height(c as int)));
            if c > 0 {
                assert(board.is_height_of(c - 1, board.spec_height(c - 1)));
            }
            if c < BOARD_WIDTH - 1 {
                assert(board.is_height_of(c + 1, board.spec_height(c + 1)));
            }
        }
        let h = board.height(c);
        let rim = if c == 0 {
            board.height(1)
        } else if c == BOARD_WIDTH - 1 {
            board.height(BOARD_WIDTH - 2)
        } else {
            let left = board.height(c - 1);
            let right = board.height(c + 1);
            if left <= right {
                left
            } else {
                right
            }
        };
        depths[c] = if rim > h {
            (rim - h) as u64
        } else {
            0
        };
        c += 1;
    }
    depths
}

/// The sum over all columns of `1 + 2 + .. + w`, where `w` is the depth of
/// the well in the column.
pub fn cuml_wells(state: &State) -> (n: u64)
    requires
        state.spec_board().wf(),
    ensures
        n == cuml_wells_of(&state.spec_board(), BOARD_WIDTH as int),
        n <= 2100,
{
    let depths = wells(state);
    let ghost board = state.spec_board();
    let mut sum: u64 = 0;
    let mut c: usize = 0;
    while c < BOARD_WIDTH
        invariant
            c <= BOARD_WIDTH,
            forall|j: int|
                0 <= j < BOARD_WIDTH ==> #[trigger] depths[j] == well_depth(&board, j) && depths[j]
                    <= BOARD_HEIGHT,
            sum == cuml_wells_of(&board, c as int),
            sum <= 210 * c,
        decreases BOARD_WIDTH - c,
    {
        let w = depths[c];
        assert(w * (w + 1) <= 420) by (nonlinear_arith)
            requires
                0 <= w <= 20,
        ;
        sum += w * (w + 1) / 2;
        c += 1;
    }
    sum
}

/// The number of empty cells that have at least one filled cell above
/// them.
pub fn pits(state: &State) -> (n: u64)
    requires
        state.spec_board().wf(),
    ensures
        n == pits_of(&state.spec_board(), BOARD_WIDTH as int),
        n <= 200,
{
    let board = state.board();
    let mut total: u64 = 0;
    let mut c: usize = 0;
    while c < BOARD_WIDTH
        invariant
            c <= BOARD_WIDTH,
            *board == state.spec_board(),
            board.wf(),
            total == pits_of(board, c as int),
            total <= 20 * c,
        decreases BOARD_WIDTH - c,
    {
        proof {
            assert(board.is_height_of(c as int, board.spec_height(c as int)));
        }
        let top = BOARD_HEIGHT - board.height(c);
        let mut r: usize = 0;
        let mut found: u64 = 0;
        while r < BOARD_HEIGHT
            invariant
                c < BOARD_WIDTH,
                r <= BOARD_HEIGHT,
                top == BOARD_HEIGHT - board.spec_height(c as int),
                found == col_pits(board, c as int, r as int),
                found <= r,
            decreases BOARD_HEIGHT - r,
        {
            if r >= top && board.get(r, c).empty() {
                found += 1;
            }
            r += 1;
        }
        total += found;
        c += 1;
    }
    total
}

/// The height of the row below the matrix of the previously placed piece
/// above the floor.
pub fn landing_height(state: &State) -> (n: u64)
    ensures
        n == landing_height_of(state.spec_delta()),
{
    match state.delta() {
        Some(delta) => {
            let size = delta.mv.piece.data().size;
            let low: i128 = delta.mv.pos.row as i128 + size as i128;
            if low >= 20 {
                0
            } else {
                (20 - low) as u64
            }
        },
        None => 0,
    }
}

/// The number of cells that were cleared from the previously placed
/// piece.
pub fn eroded_cells(state: &State) -> (n: u64)
    ensures
        n == eroded_cells_of(state.spec_delta()),
{
    match state.delta() {
        Some(delta) => delta.eroded as u64,
        None => 0,
    }
}


/// One of the numbers by which a state is judged.
#[derive(Clone, Copy, Debug, PartialEq, Eq, Structural)]
pub enum Feature {
    ColTrans,
    RowTrans,
    Pits,
    LandingHeight,
    ErodedCells,
    CumlWells,
}

/// A weight, in thousandths.
pub type Weight = i32;

/// Number of weight units that make one whole.
pub const WEIGHT_SCALE: i32 = 1000;

/// The most entries that a list of features or weights may hold.
pub const MAX_ENTRIES: usize = 0xffff_ffff;

/// Whether both texts hold the same characters.
pub fn same_text(a: &str, b: &str) -> (same: bool)
    ensures
        same == (a@ == b@),
{
    let n = a.unicode_len();
    if b.unicode_len() != n {
        return false;
    }
    let mut i: usize = 0;
    while i < n
        invariant
            i <= n,
            n == a@.len(),
            n == b@.len(),
            forall|k: int| 0 <= k < i ==> a@[k] == b@[k],
        decreases n - i,
    {
        if a.get_char(i) != b.get_char(i) {
            return false;
        }
        i += 1;
    }
    assert(a@ =~= b@);
    true
}

impl Feature {
    /// The name of the feature.
    pub open spec fn spec_name(self) -> Seq<char> {
        match self {
            Feature::ColTrans => "col_trans"@,
            Feature::RowTrans => "row_trans"@,
            Feature::Pits => "pits"@,
            Feature::LandingHeight => "landing_height"@,
            Feature::ErodedCells => "eroded_cells"@,
            Feature::CumlWells => "cuml_wells"@,
        }
    }

    /// The feature with the given name, if there is one.
    pub open spec fn lookup(name: Seq<char>) -> Option<Feature> {
        if name == "col_trans"@ {
            Some(Feature::ColTrans)
        } else if name == "row_trans"@ {
            Some(Feature::RowTrans)
        } else if name == "pits"@ {
            Some(Feature::Pits)
        } else if name == "landing_height"@ {
            Some(Feature::LandingHeight)
        } else if name == "eroded_cells"@ {
            Some(Feature::ErodedCells)
        } else if name == "cuml_wells"@ {
            Some(Feature::CumlWells)
        } else {
            None
        }
    }

    /// What the feature counts in the state.
    pub open spec fn spec_value(self, state: &State) -> int {
        match self {
            Feature::ColTrans => col_trans_of(&state.spec_board(), BOARD_WIDTH as int),
            Feature::RowTrans => row_trans_of(&state.spec_board(), BOARD_HEIGHT as int),
            Feature::Pits => pits_of(&state.spec_board(), BOARD_WIDTH as int),
            Feature::LandingHeight => landing_height_of(state.spec_delta()),
            Feature::ErodedCells => eroded_cells_of(state.spec_delta()),
            Feature::CumlWells => cuml_wells_of(&state.spec_board(), BOARD_WIDTH as int),
        }
    }

    /// The features in their usual order.
    pub open spec fn spec_all() -> Seq<Feature> {
        seq![
            Feature::ColTrans,
            Feature::RowTrans,
            Feature::Pits,
            Feature::LandingHeight,
            Feature::ErodedCells,
            Feature::CumlWells,
        ]
    }

    /// Every feature is found again by its name.
    pub proof fn lemma_lookup_name(f: Feature)
        ensures
            Feature::lookup(f.spec_name()) == Some(f),
    {
        reveal_strlit("col_trans");
        reveal_strlit("row_trans");
        reveal_strlit("pits");
        reveal_strlit("landing_height");
        reveal_strlit("eroded_cells");
        reveal_strlit("cuml_wells");
        assert("col_trans"@.len() == 9 && "col_trans"@[0] == 'c');
        assert("row_trans"@.len() == 9 && "row_trans"@[0] == 'r');
        assert("pits"@.len() == 4);
        assert("landing_height"@.len() == 14);
        assert("eroded_cells"@.len() == 12);
        assert("cuml_wells"@.len() == 10);
    }

    /// The features in their usual order.
    pub fn all() -> (list: [Feature; 6])
        ensures
            list@ == Feature::spec_all(),
    {
        let list = [
            Feature::ColTrans,
            Feature::RowTrans,
            Feature::Pits,
            Feature::LandingHeight,
            Feature::ErodedCells,
            Feature::CumlWells,
        ];
        assert(list@ =~= Feature::spec_all());
        list
    }

    /// The name of the feature.
    pub fn name(&self) -> (name: &'static str)
        ensures
            name@ == self.spec_name(),
            Feature::lookup(name@) == Some(*self),
    {
        proof {
            Feature::lemma_lookup_name(*self);
        }
        match self {
            Feature::ColTrans => "col_trans",
            Feature::RowTrans => "row_trans",
            Feature::Pits => "pits",
            Feature::LandingHeight => "landing_height",
            Feature::ErodedCells => "eroded_cells",
            Feature::CumlWells => "cuml_wells",
        }
    }

    /// The feature with the given name, if there is one.
    pub fn from_name(name: &str) -> (feature: Option<Feature>)
        ensures
            feature == Feature::lookup(name@),
    {
        if same_text(name, "col_trans") {
            Some(Feature::ColTrans)
        } else if same_text(name, "row_trans") {
            Some(Feature::RowTrans)
        } else if same_text(name, "pits") {
            Some(Feature::Pits)
        } else if same_text(name, "landing_height") {
            Some(Feature::LandingHeight)
        } else if same_text(name, "eroded_cells") {
            Some(Feature::ErodedCells)
        } else if same_text(name, "cuml_wells") {
            Some(Feature::CumlWells)
        } else {
            None
        }
    }

    /// What the feature counts in the state.
    pub fn value(&self, state: &State) -> (n: u64)
        requires
            state.spec_board().wf(),
        ensures
            n == self.spec_value(state),
    {
        match self {
            Feature::ColTrans => col_trans(state),
            Feature::RowTrans => row_trans(state),
            Feature::Pits => pits(state),
            Feature::LandingHeight => landing_height(state),
            Feature::ErodedCells => eroded_cells(state),
            Feature::CumlWells => cuml_wells(state),
        }
    }
}

/// The weights of the preset with the given name, in thousandths, if
/// there is such a preset.
pub open spec fn preset_of(name: Seq<char>) -> Option<Seq<(Feature, Weight)>> {
    if name == "score"@ {
        Some(
            seq![
                (Feature::ColTrans, -6800i32),
                (Feature::RowTrans, -2700i32),
                (Feature::Pits, -12700i32),
                (Feature::LandingHeight, -3800i32),
                (Feature::ErodedCells, -10000i32),
                (Feature::CumlWells, -400i32),
            ],
        )
    } else if name == "infinite"@ {
        Some(
            seq![
                (Feature::ColTrans, -8400i32),
                (Feature::RowTrans, -2400i32),
                (Feature::Pits, -10000i32),
                (Feature::LandingHeight, -5000i32),
                (Feature::ErodedCells, 10000i32),
                (Feature::CumlWells, -3500i32),
            ],
        )
    } else {
        None
    }
}

/// The sum of the first `n` products of a feature's value in the state
/// and its weight.
pub open spec fn weighted_sum(entries: Seq<(Feature, Weight)>, state: &State, n: int) -> int
    decreases n,
{
    if n <= 0 {
        0
    } else {
        weighted_sum(entries, state, n - 1) + entries[n - 1].0.spec_value(state) * entries[n - 1].1
    }
}

/// The pairs with the features named.
pub open spec fn named(entries: Seq<(Feature, Weight)>) -> Seq<(Seq<char>, Weight)> {
    Seq::new(entries.len(), |i: int| (entries[i].0.spec_name(), entries[i].1))
}

/// Whether every name is the name of a feature.
pub open spec fn all_known(names: Seq<Seq<char>>) -> bool {
    forall|i: int| 0 <= i < names.len() ==> Feature::lookup(#[trigger] names[i]) is Some
}

/// The texts that the slices hold.
pub open spec fn texts(names: Seq<&str>) -> Seq<Seq<char>> {
    Seq::new(names.len(), |i: int| names[i]@)
}

/// A list of features.
#[derive(Debug)]
pub struct Features(Vec<Feature>);

/// A list of features, each with its weight: a way to judge a state.
#[derive(Debug)]
pub struct Weights(Vec<(Feature, Weight)>);

/// A list of names of features, each with its weight.
#[derive(Debug)]
pub struct WeightsMap(Vec<(String, Weight)>);

impl View for Features {
    type V = Seq<Feature>;

    closed spec fn view(&self) -> Seq<Feature> {
        self.0@
    }
}

impl View for Weights {
    type V = Seq<(Feature, Weight)>;

    closed spec fn view(&self) -> Seq<(Feature, Weight)> {
        self.0@
    }
}

impl View for WeightsMap {
    type V = Seq<(Seq<char>, Weight)>;

    closed spec fn view(&self) -> Seq<(Seq<char>, Weight)> {
        Seq::new(self.0@.len(), |i: int| (self.0@[i].0@, self.0@[i].1))
    }
}

impl Features {
    #[verifier::type_invariant]
    spec fn bounded(self) -> bool {
        self.0.len() <= MAX_ENTRIES
    }

    /// The features with the given names, in their order. A name that no
    /// feature has is refused.
    pub fn from_names(names: &[&str]) -> (features: Result<Features, Error>)
        requires
            names.len() <= MAX_ENTRIES,
        ensures
            features is Ok <==> all_known(texts(names@)),
            features matches Err(e) ==> e == Error::UnknownFeature,
            features matches Ok(f) ==> f@.len() == names.len() && forall|i: int|
                0 <= i < names.len() ==> Some(#[trigger] f@[i]) == Feature::lookup(names[i]@),
    {
        let mut list: Vec<Feature> = Vec::new();
        let mut i: usize = 0;
        while i < names.len()
            invariant
                i <= names.len() <= MAX_ENTRIES,
                list.len() == i,
                forall|k: int| 0 <= k < i ==> Some(#[trigger] list[k]) == Feature::lookup(names[k]@),
            decreases names.len() - i,
        {
            match Feature::from_name(names[i]) {
                Some(feature) => {
                    list.push(feature);
                },
                None => {
                    assert(texts(names@)[i as int] == names[i as int]@);
                    return Err(Error::UnknownFeature);
                },
            }
            i += 1;
        }
        assert forall|k: int| 0 <= k < texts(names@).len() implies Feature::lookup(
            #[trigger] texts(names@)[k],
        ) is Some by {
            assert(Some(list[k]) == Feature::lookup(names[k]@));
        }
        Ok(Features(list))
    }

    /// Number of features in the list.
    pub fn len(&self) -> (n: usize)
        ensures
            n == self@.len(),
            n <= MAX_ENTRIES,
    {
        proof {
            use_type_invariant(self);
        }
        self.0.len()
    }

    /// Whether the list is empty.
    pub fn is_empty(&self) -> (b: bool)
        ensures
            b == (self@.len() == 0),
    {
        self.0.len() == 0
    }

    /// The feature at the given place.
    pub fn get(&self, i: usize) -> (feature: Feature)
        requires
            i < self@.len(),
        ensures
            feature == self@[i as int],
    {
        self.0[i]
    }

    /// The features with the given weights, one for each. A list of
    /// another length is refused.
    pub fn with_weights(&self, weights: &[Weight]) -> (paired: Result<Weights, Error>)
        ensures
            paired is Ok <==> weights.len() == self@.len(),
            paired matches Err(e) ==> e == Error::LengthMismatch,
            paired matches Ok(w) ==> w@.len() == self@.len() && forall|i: int|
                0 <= i < self@.len() ==> #[trigger] w@[i] == (self@[i], weights[i]),
    {
        proof {
            use_type_invariant(self);
        }
        if self.0.len() != weights.len() {
            return Err(Error::LengthMismatch);
        }
        let mut list: Vec<(Feature, Weight)> = Vec::new();
        let mut i: usize = 0;
        while i < self.0.len()
            invariant
                i <= self.0.len() <= MAX_ENTRIES,
                self.0.len() == weights.len(),
                list.len() == i,
                forall|k: int| 0 <= k < i ==> #[trigger] list[k] == (self.0[k], weights[k]),
            decreases self.0.len() - i,
        {
            list.push((self.0[i], weights[i]));
            i += 1;
        }
        Ok(Weights(list))
    }
}

impl Clone for Features {
    fn clone(&self) -> (copy: Features)
        ensures
            copy@ == self@,
    {
        proof {
            use_type_invariant(self);
        }
        let mut list: Vec<Feature> = Vec::new();
        let mut i: usize = 0;
        while i < self.0.len()
            invariant
                i <= self.0.len() <= MAX_ENTRIES,
                list.len() == i,
                forall|k: int| 0 <= k < i ==> list[k] == self.0[k],
            decreases self.0.len() - i,
        {
            list.push(self.0[i]);
            i += 1;
        }
        assert(list@ =~= self.0@);
        Features(list)
    }
}

impl Weights {
    #[verifier::type_invariant]
    spec fn bounded(self) -> bool {
        self.0.len() <= MAX_ENTRIES
    }

    /// The six features in their usual order, each with the given weight.
    fn uniform(weight: Weight) -> (weights: Weights)
        ensures
            weights@.len() == 6,
            forall|i: int| 0 <= i < 6 ==> #[trigger] weights@[i] == (Feature::spec_all()[i], weight),
    {
        let all = Feature::all();
        let mut list: Vec<(Feature, Weight)> = Vec::new();
        let mut i: usize = 0;
        while i < 6
            invariant
                i <= 6,
                all@ == Feature::spec_all(),
                list.len() == i,
                forall|k: int| 0 <= k < i ==> #[trigger] list[k] == (Feature::spec_all()[k], weight),
            decreases 6 - i,
        {
            list.push((all[i], weight));
            i += 1;
        }
        Weights(list)
    }

    /// The weights of the preset with the given name. A name that no
    /// preset has is refused.
    pub fn from_preset(preset: &str) -> (weights: Result<Weights, Error>)
        ensures
            weights is Ok <==> preset_of(preset@) is Some,
            weights matches Err(e) ==> e == Error::UnknownPreset,
            weights matches Ok(w) ==> Some(w@) == preset_of(preset@),
    {
        let mut list: Vec<(Feature, Weight)> = Vec::new();
        if same_text(preset, "score") {
            list.push((Feature::ColTrans, -6800));
            list.push((Feature::RowTrans, -2700));
            list.push((Feature::Pits, -12700));
            list.push((Feature::LandingHeight, -3800));
            list.push((Feature::ErodedCells, -10000));
            list.push((Feature::CumlWells, -400));
            assert(list@ =~= preset_of(preset@)->0);
            Ok(Weights(list))
        } else if same_text(preset, "infinite") {
            list.push((Feature::ColTrans, -8400));
            list.push((Feature::RowTrans, -2400));
            list.push((Feature::Pits, -10000));
            list.push((Feature::LandingHeight, -5000));
            list.push((Feature::ErodedCells, 10000));
            list.push((Feature::CumlWells, -3500));
            assert(list@ =~= preset_of(preset@)->0);
            Ok(Weights(list))
        } else {
            Err(Error::UnknownPreset)
        }
    }

    /// The weights that the list of names holds. A name that no feature
    /// has is refused.
    pub fn from_map(map: &WeightsMap) -> (weights: Result<Weights, Error>)
        ensures
            weights is Ok <==> forall|i: int|
                0 <= i < map@.len() ==> Feature::lookup((#[trigger] map@[i]).0) is Some,
            weights matches Err(e) ==> e == Error::UnknownFeature,
            weights matches Ok(w) ==> w@.len() == map@.len() && forall|i: int|
                0 <= i < map@.len() ==> Some((#[trigger] w@[i]).0) == Feature::lookup(map@[i].0)
                    && w@[i].1 == map@[i].1,
    {
        proof {
            use_type_invariant(map);
        }
        let mut list: Vec<(Feature, Weight)> = Vec::new();
        let mut i: usize = 0;
        while i < map.0.len()
            invariant
                i <= map.0.len() <= MAX_ENTRIES,
                list.len() == i,
                map@.len() == map.0.len(),
                forall|k: int| 0 <= k < map.0.len() ==> #[trigger] map@[k] == (map.0[k].0@, map.0[k].1),
                forall|k: int|
                    0 <= k < i ==> Some((#[trigger] list[k]).0) == Feature::lookup(map@[k].0)
                        && list[k].1 == map@[k].1,
            decreases map.0.len() - i,
        {
            match Feature::from_name(map.0[i].0.as_str()) {
                Some(feature) => {
                    list.push((feature, map.0[i].1));
                },
                None => {
                    assert(Feature::lookup(map@[i as int].0) is None);
                    return Err(Error::UnknownFeature);
                },
            }
            i += 1;
        }
        assert forall|k: int| 0 <= k < map@.len() implies Feature::lookup((#[trigger] map@[k]).0) is Some by {
            assert(Some(list[k].0) == Feature::lookup(map@[k].0));
        }
        Ok(Weights(list))
    }

    /// Number of features in the list.
    pub fn len(&self) -> (n: usize)
        ensures
            n == self@.len(),
            n <= MAX_ENTRIES,
    {
        proof {
            use_type_invariant(self);
        }
        self.0.len()
    }

    /// The value of the state: the sum, over the list, of what a feature
    /// counts in the state times its weight. In thousandths.
    pub fn evaluate(&self, state: &State) -> (score: i128)
        requires
            state.spec_board().wf(),
        ensures
            score == weighted_sum(self@, state, self@.len() as int),
    {
        proof {
            use_type_invariant(self);
        }
        let mut score: i128 = 0;
        let mut i: usize = 0;
        while i < self.0.len()
            invariant
                i <= self.0.len() <= MAX_ENTRIES,
                state.spec_board().wf(),
                score == weighted_sum(self@, state, i as int),
                -(i * 0x8000_0000_0000_0000_0000_0000) <= score <= i
                    * 0x8000_0000_0000_0000_0000_0000,
            decreases self.0.len() - i,
        {
            let value = self.0[i].0.value(state);
            let weight = self.0[i].1;
            assert(-0x8000_0000_0000_0000_0000_0000 <= value * weight
                <= 0x8000_0000_0000_0000_0000_0000) by (nonlinear_arith)
                requires
                    0 <= value <= 0xffff_ffff_ffff_ffff,
                    -0x8000_0000 <= weight <= 0x7fff_ffff,
            ;
            score = score + value as i128 * weight as i128;
            i += 1;
        }
        score
    }

    /// The weights, in the order of the list.
    pub fn iter_values(&self) -> (values: Vec<Weight>)
        ensures
            values@.len() == self@.len(),
            forall|i: int| 0 <= i < self@.len() ==> #[trigger] values@[i] == self@[i].1,
    {
        let mut values: Vec<Weight> = Vec::new();
        let mut i: usize = 0;
        while i < self.0.len()
            invariant
                i <= self.0.len(),
                values.len() == i,
                forall|k: int| 0 <= k < i ==> #[trigger] values[k] == self.0[k].1,
            decreases self.0.len() - i,
        {
            values.push(self.0[i].1);
            i += 1;
        }
        values
    }

    /// The weights, in the order of the list.
    pub fn into_values(self) -> (values: Vec<Weight>)
        ensures
            values@.len() == self@.len(),
            forall|i: int| 0 <= i < self@.len() ==> #[trigger] values@[i] == self@[i].1,
    {
        self.iter_values()
    }

    /// Sets the weight at the given place.
    pub fn set_value(&mut self, i: usize, weight: Weight)
        requires
            i < old(self)@.len(),
        ensures
            final(self)@ == old(self)@.update(i as int, (old(self)@[i as int].0, weight)),
    {
        proof {
            use_type_invariant(&*self);
        }
        let feature = self.0[i].0;
        self.0[i] = (feature, weight);
    }
}

impl Clone for Weights {
    fn clone(&self) -> (copy: Weights)
        ensures
            copy@ == self@,
    {
        proof {
            use_type_invariant(self);
        }
        let mut list: Vec<(Feature, Weight)> = Vec::new();
        let mut i: usize = 0;
        while i < self.0.len()
            invariant
                i <= self.0.len() <= MAX_ENTRIES,
                list.len() == i,
                forall|k: int| 0 <= k < i ==> list[k] == self.0[k],
            decreases self.0.len() - i,
        {
            list.push(self.0[i]);
            i += 1;
        }
        assert(list@ =~= self.0@);
        Weights(list)
    }
}

impl Default for Weights {
    /// The six features in their usual order, each with the weight zero.
    fn default() -> (weights: Weights)
        ensures
            weights@.len() == 6,
            forall|i: int| 0 <= i < 6 ==> #[trigger] weights@[i] == (Feature::spec_all()[i], 0i32),
    {
        Weights::uniform(0)
    }
}

impl WeightsMap {
    #[verifier::type_invariant]
    spec fn bounded(self) -> bool {
        self.0.len() <= MAX_ENTRIES
    }

    /// The names of the six features in their usual order, each with the
    /// weight zero.
    pub fn defaults() -> (map: WeightsMap)
        ensures
            map@ == named(Seq::new(6, |i: int| (Feature::spec_all()[i], 0i32))),
    {
        let weights = Weights::uniform(0);
        let map = WeightsMap::from_weights(&weights);
        assert(weights@ =~= Seq::new(6, |i: int| (Feature::spec_all()[i], 0i32)));
        map
    }

    /// The preset with the given name. A name that no preset has is
    /// refused.
    pub fn preset(preset: &str) -> (map: Result<WeightsMap, Error>)
        ensures
            map is Ok <==> preset_of(preset@) is Some,
            map matches Err(e) ==> e == Error::UnknownPreset,
            map matches Ok(m) ==> m@ == named(preset_of(preset@)->0),
    {
        match Weights::from_preset(preset) {
            Ok(weights) => Ok(WeightsMap::from_weights(&weights)),
            Err(e) => Err(e),
        }
    }

    /// The names with the given weights, one for each. Lists of different
    /// lengths are refused.
    pub fn from_features_values(names: &[&str], values: &[Weight]) -> (map: Result<
        WeightsMap,
        Error,
    >)
        requires
            names.len() <= MAX_ENTRIES,
        ensures
            map is Ok <==> names.len() == values.len(),
            map matches Err(e) ==> e == Error::LengthMismatch,
            map matches Ok(m) ==> m@.len() == names.len() && forall|i: int|
                0 <= i < names.len() ==> #[trigger] m@[i] == (names[i]@, values[i]),
    {
        if names.len() != values.len() {
            return Err(Error::LengthMismatch);
        }
        let mut list: Vec<(String, Weight)> = Vec::new();
        let mut i: usize = 0;
        while i < names.len()
            invariant
                i <= names.len() <= MAX_ENTRIES,
                names.len() == values.len(),
                list.len() == i,
                forall|k: int| 0 <= k < i ==> (#[trigger] list[k]).0@ == names[k]@ && list[k].1 == values[k],
            decreases names.len() - i,
        {
            list.push((String::from_str(names[i]), values[i]));
            i += 1;
        }
        let map = WeightsMap(list);
        assert forall|k: int| 0 <= k < names.len() implies #[trigger] map@[k] == (
            names[k]@,
            values[k],
        ) by {
            assert(map.0[k].0@ == names[k]@);
        }
        Ok(map)
    }

    /// The weights with the features named.
    pub fn from_weights(weights: &Weights) -> (map: WeightsMap)
        ensures
            map@ == named(weights@),
    {
        proof {
            use_type_invariant(weights);
        }
        let mut list: Vec<(String, Weight)> = Vec::new();
        let mut i: usize = 0;
        while i < weights.0.len()
            invariant
                i <= weights.0.len() <= MAX_ENTRIES,
                list.len() == i,
                forall|k: int|
                    0 <= k < i ==> (#[trigger] list[k]).0@ == weights.0[k].0.spec_name() && list[k].1
                        == weights.0[k].1,
            decreases weights.0.len() - i,
        {
            list.push((String::from_str(weights.0[i].0.name()), weights.0[i].1));
            i += 1;
        }
        let map = WeightsMap(list);
        assert(map@ =~= named(weights@));
        map
    }

    /// Number of entries of the list.
    pub fn len(&self) -> (n: usize)
        ensures
            n == self@.len(),
    {
        self.0.len()
    }

    /// The name at the given place, with its weight.
    pub fn get(&self, i: usize) -> (entry: (&str, Weight))
        requires
            i < self@.len(),
        ensures
            entry.0@ == self@[i as int].0,
            entry.1 == self@[i as int].1,
    {
        (self.0[i].0.as_str(), self.0[i].1)
    }

    /// The names, in the order of the list.
    pub fn names(&self) -> (names: Vec<&str>)
        ensures
            names@.len() == self@.len(),
            forall|i: int| 0 <= i < self@.len() ==> (#[trigger] names@[i])@ == self@[i].0,
    {
        let mut names: Vec<&str> = Vec::new();
        let mut i: usize = 0;
        while i < self.0.len()
            invariant
                i <= self.0.len(),
                names.len() == i,
                forall|k: int| 0 <= k < i ==> (#[trigger] names[k])@ == self.0[k].0@,
            decreases self.0.len() - i,
        {
            names.push(self.0[i].0.as_str());
            i += 1;
        }
        names
    }
}

impl Default for WeightsMap {
    /// The names of the six features in their usual order, each with the
    /// weight zero.
    fn default() -> (map: WeightsMap)
        ensures
            map@ == named(Seq::new(6, |i: int| (Feature::spec_all()[i], 0i32))),
    {
        WeightsMap::defaults()
    }
}

/// The value of the state by the given weights, in thousandths.
pub fn evaluate(state: &State, weights: &Weights) -> (score: i128)
    requires
        state.spec_board().wf(),
    ensures
        score == weighted_sum(weights@, state, weights@.len() as int),
{
    weights.evaluate(state)
}

/// Whether both states show the same to the features: the same board
/// and, of the last placement, the same move and the same count of
/// cleared cells.
pub open spec fn same_look(one: &State, two: &State) -> bool {
    &&& one.spec_board() == two.spec_board()
    &&& one.spec_delta() is Some == two.spec_delta() is Some
    &&& one.spec_delta() matches Some(d) ==> d.mv == two.spec_delta()->0.mv && d.eroded
        == two.spec_delta()->0.eroded
}

/// States that show the same to the features have the same value.
pub proof fn lemma_same_value(entries: Seq<(Feature, Weight)>, one: &State, two: &State, n: int)
    requires
        same_look(one, two),
    ensures
        weighted_sum(entries, one, n) == weighted_sum(entries, two, n),
    decreases n,
{
    if n > 0 {
        lemma_same_value(entries, one, two, n - 1);
        assert(entries[n - 1].0.spec_value(one) == entries[n - 1].0.spec_value(two));
    }
}

} // verus!
