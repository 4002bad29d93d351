use vstd::prelude::*;

verus! {

/// The default tile value that wins the game.
pub const WIN: u16 = 2048;

/// The default chance, in percent, that a spawned tile is a 4.
pub const FOUR_PERCENTAGE: u8 = 10;

/// A positive power of two of at least 2: the values a tile may hold.
pub open spec fn is_tile(v: int) -> bool
    decreases v,
{
    if v <= 2 {
        v == 2
    } else {
        v % 2 == 0 && is_tile(v / 2)
    }
}

/// A stored slot value: zero (an empty slot) or a tile.
pub open spec fn is_slot_value(v: int) -> bool {
    v == 0 || is_tile(v)
}

/// Doubling a tile gives a tile.
pub proof fn lemma_double_tile(v: int)
    requires
        is_tile(v),
    ensures
        is_tile(2 * v),
{
    assert((2 * v) / 2 == v);
}

/// Outcome of evaluating a board.
#[derive(Debug, Clone, Copy, PartialEq, Eq, Structural)]
pub enum MoveState {
    Win,
    Lose,
    CanMove { vertical: bool, horizontal: bool },
}

/// One slot of the board.
#[derive(Debug, Clone, Copy, PartialEq, Eq, Structural)]
pub enum Cell {
    Empty,
    Cell(u16),
}

/// The slot value that a cell is stored as; `Empty` is stored as zero.
pub open spec fn stored_value(c: Cell) -> u16 {
    match c {
        Cell::Empty => 0,
        Cell::Cell(v) => v,
    }
}

/// The cell that a stored slot value reads as.
pub open spec fn cell_of(v: u16) -> Cell {
    if v == 0 {
        Cell::Empty
    } else {
        Cell::Cell(v)
    }
}

/// The board: sixteen slots in row-major order (index = row * 4 + column),
/// with the rules' two parameters.
#[derive(Debug, Clone, Copy)]
pub struct GameState {
    pub cells: [u16; 16],
    /// Chance, in percent, that a spawned tile is a 4 rather than a 2.
    pub four_percentage: u8,
    /// The tile value that wins the game.
    pub win: u16,
}

/// Index of the slot at `(row, col)`.
pub open spec fn slot(row: int, col: int) -> int {
    row * 4 + col
}

/// Some slot of `b` is empty.
pub open spec fn has_empty(b: Seq<u16>) -> bool {
    exists|i: int| 0 <= i < 16 && #[trigger] b[i] == 0
}

/// Some slot of `b` holds `win`.
pub open spec fn has_value(b: Seq<u16>, win: u16) -> bool {
    exists|i: int| 0 <= i < 16 && #[trigger] b[i] == win
}

/// The tiles at `(row, col)` and `(row, col + 1)` are equal.
pub open spec fn row_pair(b: Seq<u16>, row: int, col: int) -> bool {
    b[slot(row, col)] != 0 && b[slot(row, col)] == b[slot(row, col + 1)]
}

/// The tiles at `(row, col)` and `(row + 1, col)` are equal.
pub open spec fn column_pair(b: Seq<u16>, row: int, col: int) -> bool {
    b[slot(row, col)] != 0 && b[slot(row, col)] == b[slot(row + 1, col)]
}

/// Two horizontally adjacent tiles of `b` are equal.
pub open spec fn has_row_pair(b: Seq<u16>) -> bool {
    exists|row: int, col: int| 0 <= row < 4 && 0 <= col < 3 && #[trigger] row_pair(b, row, col)
}

/// Two vertically adjacent tiles of `b` are equal.
pub open spec fn has_column_pair(b: Seq<u16>) -> bool {
    exists|row: int, col: int| 0 <= row < 3 && 0 <= col < 4 && #[trigger] column_pair(b, row, col)
}

/// The outcome of board `b` when `win` is the winning tile: `Win` if a slot
/// holds it; else an axis is movable when the board has an empty slot or two
/// equal neighbouring tiles along that axis; `Lose` when neither axis is.
pub open spec fn classify(b: Seq<u16>, win: u16) -> MoveState {
    if has_value(b, win) {
        MoveState::Win
    } else {
        let vertical = has_empty(b) || has_column_pair(b);
        let horizontal = has_empty(b) || has_row_pair(b);
        if vertical || horizontal {
            MoveState::CanMove { vertical, horizontal }
        } else {
            MoveState::Lose
        }
    }
}

/// The coordinates of the empty slots among the first `n` of `b`, in
/// row-major order.
pub open spec fn empty_prefix(b: Seq<u16>, n: nat) -> Seq<(usize, usize)>
    decreases n,
{
    if n == 0 {
        seq![]
    } else {
        let before = empty_prefix(b, (n - 1) as nat);
        let i = n - 1;
        if b[i] == 0 {
            before.push(((i / 4) as usize, (i % 4) as usize))
        } else {
            before
        }
    }
}

/// The coordinates `(row, col)` of the empty slots of `b`, in row-major order.
pub open spec fn empty_cells(b: Seq<u16>) -> Seq<(usize, usize)> {
    empty_prefix(b, 16)
}

proof fn lemma_empty_prefix(b: Seq<u16>, n: nat)
    requires
        n <= 16,
        b.len() == 16,
    ensures
        forall|k: int|
            0 <= k < empty_prefix(b, n).len() ==> {
                let (r, c) = #[trigger] empty_prefix(b, n)[k];
                &&& r < 4
                &&& c < 4
                &&& b[slot(r as int, c as int)] == 0
            },
        empty_prefix(b, n).len() == 0 <==> forall|i: int| 0 <= i < n ==> #[trigger] b[i] != 0,
    decreases n,
{
    if n > 0 {
        lemma_empty_prefix(b, (n - 1) as nat);
        let i = n - 1;
        assert(slot(i / 4, i % 4) == i);
    }
}

/// Every entry of `empty_cells(b)` names an empty slot, and the list is empty
/// exactly when the board has no empty slot.
pub proof fn lemma_empty_cells(b: Seq<u16>)
    requires
        b.len() == 16,
    ensures
        forall|k: int|
            0 <= k < empty_cells(b).len() ==> {
                let (r, c) = #[trigger] empty_cells(b)[k];
                &&& r < 4
                &&& c < 4
                &&& b[slot(r as int, c as int)] == 0
            },
        empty_cells(b).len() == 0 <==> !has_empty(b),
{
    lemma_empty_prefix(b, 16);
}

impl View for GameState {
    type V = Seq<u16>;

    open spec fn view(&self) -> Seq<u16> {
        self.cells@
    }
}

impl PartialEq for GameState {
    /// Two boards are equal when all sixteen slots are; the rules' parameters
    /// take no part.
    fn eq(&self, other: &GameState) -> (r: bool) {
        let mut i: usize = 0;
        while i < 16
            invariant
                0 <= i <= 16,
                forall|j: int| 0 <= j < i ==> #[trigger] self@[j] == other@[j],
            decreases 16 - i,
        {
            if self.cells[i] != other.cells[i] {
                return false;
            }
            i = i + 1;
        }
        assert(self@ =~= other@);
        true
    }
}

impl vstd::std_specs::cmp::PartialEqSpecImpl for GameState {
    open spec fn obeys_eq_spec() -> bool {
        true
    }

    open spec fn eq_spec(&self, other: &GameState) -> bool {
        self@ == other@
    }
}

impl GameState {
    /// Every slot holds zero or a tile, the spawn chance is a percentage and
    /// the winning value is a tile.
    pub open spec fn wf(&self) -> bool {
        &&& forall|i: int| 0 <= i < 16 ==> is_slot_value(#[trigger] self@[i] as int)
        &&& self.four_percentage <= 100
        &&& is_tile(self.win as int)
    }

    /// An empty board with the default rules.
    pub fn new() -> (r: GameState)
        ensures
            r@ == Seq::new(16, |i: int| 0u16),
            r.four_percentage == FOUR_PERCENTAGE,
            r.win == WIN,
            r.wf(),
    {
        let r = GameState { cells: [0u16; 16], four_percentage: FOUR_PERCENTAGE, win: WIN };
        assert(r@ =~= Seq::new(16, |i: int| 0u16));
        proof {
            reveal_with_fuel(is_tile, 11);
        }
        r
    }

    /// A board holding `cells`, in row-major order, with the default rules.
    pub fn from_cells(cells: [u16; 16]) -> (r: GameState)
        ensures
            r@ == cells@,
            r.four_percentage == FOUR_PERCENTAGE,
            r.win == WIN,
            (forall|i: int| 0 <= i < 16 ==> is_slot_value(#[trigger] cells@[i] as int)) ==> r.wf(),
    {
        proof {
            reveal_with_fuel(is_tile, 11);
        }
        GameState { cells, four_percentage: FOUR_PERCENTAGE, win: WIN }
    }

    /// The cell at `(row, col)`, or `None` where either lies outside `0..4`.
    pub fn get_cell(&self, row: usize, col: usize) -> (r: Option<Cell>)
        ensures
            row < 4 && col < 4 ==> r == Some(cell_of(self@[slot(row as int, col as int)])),
            !(row < 4 && col < 4) ==> r is None,
    {
        if row >= 4 || col >= 4 {
            return None;
        }
        let v = self.cells[row * 4 + col];
        if v == 0 {
            Some(Cell::Empty)
        } else {
            Some(Cell::Cell(v))
        }
    }

    /// Overwrites the slot at `(row, col)`; `Empty` is stored as zero.
    pub fn set_cell(&mut self, row: usize, col: usize, cell: Cell)
        requires
            row < 4,
            col < 4,
        ensures
            final(self)@ == old(self)@.update(slot(row as int, col as int), stored_value(cell)),
            final(self).four_percentage == old(self).four_percentage,
            final(self).win == old(self).win,
            old(self).wf() && is_slot_value(stored_value(cell) as int) ==> final(self).wf(),
    {
        let v = match cell {
            Cell::Empty => 0u16,
            Cell::Cell(v) => v,
        };
        let ghost before = self@;
        self.cells[row * 4 + col] = v;
        assert(self@ == before.update(slot(row as int, col as int), v));
    }

    /// The coordinates of the empty slots, in row-major order.
    pub fn get_empty_cells(&self) -> (r: Vec<(usize, usize)>)
        ensures
            r@ == empty_cells(self@),
    {
        let mut r: Vec<(usize, usize)> = Vec::new();
        let mut i: usize = 0;
        while i < 16
            invariant
                0 <= i <= 16,
                r@ == empty_prefix(self@, i as nat),
            decreases 16 - i,
        {
            if self.cells[i] == 0 {
                r.push((i / 4, i % 4));
            }
            i = i + 1;
        }
        r
    }

    /// Classifies the board: `Win`, `Lose`, or the axes along which a move is
    /// still possible.
    pub fn check_state(&self) -> (r: MoveState)
        ensures
            r == classify(self@, self.win),
            r is Win ==> has_value(self@, self.win),
            has_value(self@, self.win) ==> r is Win,
            has_empty(self@) ==> !(r is Lose),
    {
        let mut vertical = false;
        let mut horizontal = false;
        let mut i: usize = 0;
        while i < 16
            invariant
                0 <= i <= 16,
                forall|j: int| 0 <= j < i ==> #[trigger] self@[j] != self.win,
                vertical == horizontal,
                vertical == exists|j: int| 0 <= j < i && #[trigger] self@[j] == 0,
            decreases 16 - i,
        {
            let v = self.cells[i];
            if v == self.win {
                return MoveState::Win;
            } else if v == 0 {
                vertical = true;
                horizontal = true;
            }
            i = i + 1;
        }
        if !vertical {
            vertical = self.can_merge_vertically();
        }
        if !horizontal {
            horizontal = self.can_merge_horizontally();
        }
        if vertical || horizontal {
            MoveState::CanMove { vertical, horizontal }
        } else {
            MoveState::Lose
        }
    }

    /// Whether two vertically adjacent tiles are equal.
    fn can_merge_vertically(&self) -> (r: bool)
        ensures
            r == has_column_pair(self@),
    {
        let mut col: usize = 0;
        while col < 4
            invariant
                0 <= col <= 4,
                forall|r: int, c: int| 0 <= r < 3 && 0 <= c < col ==> !#[trigger] column_pair(self@, r, c),
            decreases 4 - col,
        {
            let mut row: usize = 0;
            while row < 3
                invariant
                    0 <= row <= 3,
                    col < 4,
                    forall|r: int, c: int| 0 <= r < 3 && 0 <= c < col ==> !#[trigger] column_pair(self@, r, c),
                    forall|r: int| 0 <= r < row ==> !#[trigger] column_pair(self@, r, col as int),
                decreases 3 - row,
            {
                let cur = self.cells[row * 4 + col];
                if cur != 0 && cur == self.cells[(row + 1) * 4 + col] {
                    assert(column_pair(self@, row as int, col as int));
                    return true;
                }
                row = row + 1;
            }
            col = col + 1;
        }
        false
    }

    /// Whether two horizontally adjacent tiles are equal.
    fn can_merge_horizontally(&self) -> (r: bool)
        ensures
            r == has_row_pair(self@),
    {
        let mut row: usize = 0;
        while row < 4
            invariant
                0 <= row <= 4,
                forall|r: int, c: int| 0 <= r < row && 0 <= c < 3 ==> !#[trigger] row_pair(self@, r, c),
            decreases 4 - row,
        {
            let mut col: usize = 0;
            while col < 3
                invariant
                    0 <= col <= 3,
                    row < 4,
                    forall|r: int, c: int| 0 <= r < row && 0 <= c < 3 ==> !#[trigger] row_pair(self@, r, c),
                    forall|c: int| 0 <= c < col ==> !#[trigger] row_pair(self@, row as int, c),
                decreases 3 - col,
            {
                let cur = self.cells[row * 4 + col];
                if cur != 0 && cur == self.cells[row * 4 + col + 1] {
                    assert(row_pair(self@, row as int, col as int));
                    return true;
                }
                col = col + 1;
            }
            row = row + 1;
        }
        false
    }
}

} // verus!
