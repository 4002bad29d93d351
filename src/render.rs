use vstd::prelude::*;
use vstd::string::StringExecFns;

use crate::state::{cell_of, slot, Cell, GameState};

verus! {

/// The character of decimal digit `d`.
pub open spec fn digit_char(d: int) -> char {
    if d == 0 {
        '0'
    } else if d == 1 {
        '1'
    } else if d == 2 {
        '2'
    } else if d == 3 {
        '3'
    } else if d == 4 {
        '4'
    } else if d == 5 {
        '5'
    } else if d == 6 {
        '6'
    } else if d == 7 {
        '7'
    } else if d == 8 {
        '8'
    } else {
        '9'
    }
}

/// The decimal digits of `n`, most significant first, without leading zeros.
pub open spec fn decimal(n: nat) -> Seq<char>
    decreases n,
{
    if n < 10 {
        seq![digit_char(n as int)]
    } else {
        decimal(n / 10) + seq![digit_char((n % 10) as int)]
    }
}

/// `n` spaces.
pub open spec fn spaces(n: nat) -> Seq<char> {
    Seq::new(n, |i: int| ' ')
}

/// A cell as text: four spaces when empty, else its value in decimal,
/// right-aligned in a field of four characters.
pub open spec fn cell_text(c: Cell) -> Seq<char> {
    match c {
        Cell::Empty => spaces(4),
        Cell::Cell(v) => {
            let digits = decimal(v as nat);
            if digits.len() < 4 {
                spaces((4 - digits.len()) as nat) + digits
            } else {
                digits
            }
        },
    }
}

/// The text of slot `(row, col)` of board `b`.
pub open spec fn slot_text(b: Seq<u16>, row: int, col: int) -> Seq<char> {
    cell_text(cell_of(b[slot(row, col)]))
}

/// Row `row` of board `b` as one line of the box, with its line break.
pub open spec fn row_text(b: Seq<u16>, row: int) -> Seq<char> {
    "┃"@ + slot_text(b, row, 0) + "│"@ + slot_text(b, row, 1) + "│"@ + slot_text(b, row, 2) + "│"@
        + slot_text(b, row, 3) + "┃\n"@
}

/// Board `b` drawn as a box of four rows of four cells.
pub open spec fn board_text(b: Seq<u16>) -> Seq<char> {
    "┏━━━━┯━━━━┯━━━━┯━━━━┓\n"@ + row_text(b, 0) + "┠────┼────┼────┼────┨\n"@ + row_text(b, 1)
        + "┠────┼────┼────┼────┨\n"@ + row_text(b, 2) + "┠────┼────┼────┼────┨\n"@ + row_text(
        b,
        3,
    ) + "┗━━━━┷━━━━┷━━━━┷━━━━┛"@
}

/// The one-character text of decimal digit `d`.
fn digit_str(d: u16) -> (r: &'static str)
    requires
        d < 10,
    ensures
        r@ == seq![digit_char(d as int)],
{
    proof {
        reveal_strlit("0");
        reveal_strlit("1");
        reveal_strlit("2");
        reveal_strlit("3");
        reveal_strlit("4");
        reveal_strlit("5");
        reveal_strlit("6");
        reveal_strlit("7");
        reveal_strlit("8");
        reveal_strlit("9");
    }
    let r = if d == 0 {
        "0"
    } else if d == 1 {
        "1"
    } else if d == 2 {
        "2"
    } else if d == 3 {
        "3"
    } else if d == 4 {
        "4"
    } else if d == 5 {
        "5"
    } else if d == 6 {
        "6"
    } else if d == 7 {
        "7"
    } else if d == 8 {
        "8"
    } else {
        "9"
    };
    assert(r@ =~= seq![digit_char(d as int)]);
    r
}

/// Appends the decimal digits of `n` to `out`.
fn push_decimal(out: &mut String, n: u16)
    ensures
        final(out)@ == old(out)@ + decimal(n as nat),
    decreases n,
{
    if n >= 10 {
        push_decimal(out, n / 10);
    }
    out.append(digit_str(n % 10));
    assert(final(out)@ =~= old(out)@ + decimal(n as nat)) by {
        if n >= 10 {
            assert(old(out)@ + decimal((n / 10) as nat) + seq![digit_char((n % 10) as int)]
                =~= old(out)@ + decimal(n as nat));
        }
    }
}

/// The number of decimal digits of `n`.
fn decimal_len(n: u16) -> (r: usize)
    ensures
        r == decimal(n as nat).len(),
        r <= 5,
{
    proof {
        reveal_with_fuel(decimal, 5);
    }
    if n < 10 {
        1
    } else if n < 100 {
        2
    } else if n < 1000 {
        3
    } else if n < 10000 {
        4
    } else {
        5
    }
}

impl Cell {
    /// The cell as text: four spaces when empty, else its value right-aligned
    /// in a field of four characters.
    pub fn render(&self) -> (r: String)
        ensures
            r@ == cell_text(*self),
    {
        proof {
            reveal_strlit("    ");
        }
        match self {
            Cell::Empty => {
                let r = String::from_str("    ");
                assert(r@ =~= spaces(4));
                r
            },
            Cell::Cell(v) => {
                let len = decimal_len(*v);
                let mut r = String::new();
                let mut k: usize = len;
                while k < 4
                    invariant
                        len <= k <= 4 || (len > 4 && k == len),
                        r@ == spaces((k - len) as nat),
                    decreases 4 - k,
                {
                    proof {
                        reveal_strlit(" ");
                    }
                    r.append(" ");
                    k = k + 1;
                    assert(r@ =~= spaces((k - len) as nat));
                }
                push_decimal(&mut r, *v);
                proof {
                    if len >= 4 {
                        assert(r@ =~= decimal(*v as nat));
                    }
                }
                r
            },
        }
    }
}

/// Appends the text of slot `(row, col)` of `state` to `out`.
fn push_slot(out: &mut String, state: &GameState, row: usize, col: usize)
    requires
        row < 4,
        col < 4,
    ensures
        final(out)@ == old(out)@ + slot_text(state@, row as int, col as int),
{
    let cell = state.get_cell(row, col);
    let text = match cell {
        Some(c) => c.render(),
        None => String::new(),
    };
    out.append(text.as_str());
}

/// Appends row `row` of `state`, with its line break, to `out`.
fn push_row(out: &mut String, state: &GameState, row: usize)
    requires
        row < 4,
    ensures
        final(out)@ == old(out)@ + row_text(state@, row as int),
{
    let ghost start = out@;
    out.append("┃");
    push_slot(out, state, row, 0);
    out.append("│");
    push_slot(out, state, row, 1);
    out.append("│");
    push_slot(out, state, row, 2);
    out.append("│");
    push_slot(out, state, row, 3);
    out.append("┃\n");
    assert(out@ =~= start + row_text(state@, row as int));
}

impl GameState {
    /// The board drawn as a box of four rows of four cells, each cell
    /// right-aligned in a field of four characters.
    pub fn render(&self) -> (r: String)
        ensures
            r@ == board_text(self@),
    {
        let mut out = String::new();
        out.append("┏━━━━┯━━━━┯━━━━┯━━━━┓\n");
        push_row(&mut out, self, 0);
        out.append("┠────┼────┼────┼────┨\n");
        push_row(&mut out, self, 1);
        out.append("┠────┼────┼────┼────┨\n");
        push_row(&mut out, self, 2);
        out.append("┠────┼────┼────┼────┨\n");
        push_row(&mut out, self, 3);
        out.append("┗━━━━┷━━━━┷━━━━┷━━━━┛");
        assert(out@ =~= board_text(self@));
        out
    }
}

} // verus!
