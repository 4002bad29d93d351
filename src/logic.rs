use vstd::prelude::*;

use crate::state::{
    classify, empty_cells, has_empty, has_value, is_slot_value, is_tile, lemma_double_tile,
    lemma_empty_cells, slot, GameState, MoveState, FOUR_PERCENTAGE, WIN,
};

verus! {

/// The direction that tiles slide and merge toward.
#[derive(Debug, Clone, Copy, PartialEq, Eq, Structural)]
pub enum Direction {
    Left,
    Up,
    Right,
    Down,
}

/// Raised when a tile is to be spawned on a board with no empty slot.
#[derive(Debug, Clone, Copy, PartialEq, Eq, Structural)]
pub struct BoardFull;

/// The tiles of a line (its non-zero values), in order.
pub open spec fn tiles(s: Seq<u16>) -> Seq<u16>
    decreases s.len(),
{
    if s.len() == 0 {
        seq![]
    } else if s[0] == 0 {
        tiles(s.drop_first())
    } else {
        seq![s[0]] + tiles(s.drop_first())
    }
}

/// Two neighbouring tiles merge when they are equal and their sum fits in a slot.
pub open spec fn can_merge(a: u16, b: u16) -> bool {
    a != 0 && a == b && 2 * a <= u16::MAX
}

/// Merges equal neighbours of a run of tiles, front first; a tile produced by
/// a merge does not merge again.
pub open spec fn merge_pairs(t: Seq<u16>) -> Seq<u16>
    decreases t.len(),
{
    if t.len() < 2 {
        t
    } else if can_merge(t[0], t[1]) {
        seq![(2 * t[0]) as u16] + merge_pairs(t.subrange(2, t.len() as int))
    } else {
        seq![t[0]] + merge_pairs(t.drop_first())
    }
}

/// `s` followed by zeros up to length `n`.
pub open spec fn pad(s: Seq<u16>, n: nat) -> Seq<u16> {
    s + Seq::new((n - s.len()) as nat, |i: int| 0u16)
}

/// A line after one move toward its front: its tiles gathered at the front,
/// equal neighbours merged once, zeros behind.
pub open spec fn slide(s: Seq<u16>) -> Seq<u16> {
    pad(merge_pairs(tiles(s)), s.len())
}

/// The empty sequence or the single pending tile `p`.
spec fn pending_seq(p: u16) -> Seq<u16> {
    if p == 0 {
        seq![]
    } else {
        seq![p]
    }
}

proof fn lemma_tiles_len(s: Seq<u16>)
    ensures
        tiles(s).len() <= s.len(),
    decreases s.len(),
{
    if s.len() > 0 {
        lemma_tiles_len(s.drop_first());
    }
}

proof fn lemma_merge_pairs_len(t: Seq<u16>)
    ensures
        merge_pairs(t).len() <= t.len(),
    decreases t.len(),
{
    if t.len() >= 2 {
        if can_merge(t[0], t[1]) {
            lemma_merge_pairs_len(t.subrange(2, t.len() as int));
        } else {
            lemma_merge_pairs_len(t.drop_first());
        }
    }
}

proof fn lemma_slide_len(s: Seq<u16>)
    ensures
        slide(s).len() == s.len(),
        merge_pairs(tiles(s)).len() <= s.len(),
{
    lemma_tiles_len(s);
    lemma_merge_pairs_len(tiles(s));
}

/// Slides one line of four values toward its front.
fn slide_line(line: [u16; 4]) -> (r: [u16; 4])
    ensures
        r@ == slide(line@),
{
    let ghost whole = merge_pairs(tiles(line@));
    let mut out: [u16; 4] = [0u16; 4];
    let mut n: usize = 0;
    let mut pending: u16 = 0;
    let mut i: usize = 0;
    proof {
        assert(line@.skip(0) =~= line@);
    }
    while i < 4
        invariant
            0 <= i <= 4,
            n + pending_seq(pending).len() <= i,
            out@.take(n as int) + merge_pairs(pending_seq(pending) + tiles(line@.skip(i as int)))
                == whole,
            forall|j: int| n <= j < 4 ==> out@[j] == 0,
        decreases 4 - i,
    {
        let v = line[i];
        let ghost rest = line@.skip(i as int + 1);
        proof {
            assert(line@.skip(i as int).drop_first() =~= rest);
        }
        if v != 0 {
            if pending == 0 {
                assert(pending_seq(v) + tiles(rest) =~= seq![v] + tiles(rest));
                pending = v;
            } else if pending == v && v <= 32767 {
                let ghost t = pending_seq(pending) + tiles(line@.skip(i as int));
                assert(t.subrange(2, t.len() as int) =~= tiles(rest));
                let ghost before = out@.take(n as int);
                out[n] = 2 * v;
                n = n + 1;
                assert(out@.take(n as int) =~= before + seq![(2 * v) as u16]);
                pending = 0;
                assert(pending_seq(pending) + tiles(rest) =~= tiles(rest));
            } else {
                let ghost t = pending_seq(pending) + tiles(line@.skip(i as int));
                assert(t.drop_first() =~= pending_seq(v) + tiles(rest));
                let ghost before = out@.take(n as int);
                out[n] = pending;
                n = n + 1;
                assert(out@.take(n as int) =~= before + seq![pending]);
                pending = v;
            }
        }
        i = i + 1;
    }
    assert(line@.skip(4) =~= seq![]);
    if pending != 0 {
        let ghost before = out@.take(n as int);
        out[n] = pending;
        n = n + 1;
        assert(out@.take(n as int) =~= before + seq![pending]);
    } else {
        assert(out@.take(n as int) + seq![] =~= out@.take(n as int));
    }
    proof {
        lemma_slide_len(line@);
        assert(out@ =~= slide(line@));
    }
    out
}


/// Every value of `s` is zero or a tile.
pub open spec fn all_slot_values(s: Seq<u16>) -> bool {
    forall|i: int| 0 <= i < s.len() ==> is_slot_value(#[trigger] s[i] as int)
}

/// No value of `s` is zero.
pub open spec fn all_nonzero(s: Seq<u16>) -> bool {
    forall|i: int| 0 <= i < s.len() ==> #[trigger] s[i] != 0
}

/// Every value of `s` is zero.
pub open spec fn all_zero(s: Seq<u16>) -> bool {
    forall|i: int| 0 <= i < s.len() ==> #[trigger] s[i] == 0
}

/// No two neighbours of `s` can merge.
pub open spec fn settled(s: Seq<u16>) -> bool {
    forall|j: int| 0 <= j < s.len() - 1 ==> !can_merge(#[trigger] s[j], s[j + 1])
}

proof fn lemma_tiles_values(s: Seq<u16>)
    requires
        all_slot_values(s),
    ensures
        all_slot_values(tiles(s)),
    decreases s.len(),
{
    if s.len() > 0 {
        let r = s.drop_first();
        assert(all_slot_values(r)) by {
            assert forall|i: int| 0 <= i < r.len() implies is_slot_value(#[trigger] r[i] as int) by {
                assert(r[i] == s[i + 1]);
            }
        }
        lemma_tiles_values(r);
        if s[0] != 0 {
            assert(is_slot_value(s[0] as int));
            let t = seq![s[0]] + tiles(r);
            assert forall|i: int| 0 <= i < t.len() implies is_slot_value(#[trigger] t[i] as int) by {
                if i > 0 {
                    assert(t[i] == tiles(r)[i - 1]);
                }
            }
        }
    }
}

proof fn lemma_merge_pairs_values(t: Seq<u16>)
    requires
        all_slot_values(t),
    ensures
        all_slot_values(merge_pairs(t)),
    decreases t.len(),
{
    if t.len() >= 2 {
        let merged = can_merge(t[0], t[1]);
        let off: int = if merged {
            2
        } else {
            1
        };
        let r = t.subrange(off, t.len() as int);
        assert(all_slot_values(r)) by {
            assert forall|i: int| 0 <= i < r.len() implies is_slot_value(#[trigger] r[i] as int) by {
                assert(r[i] == t[i + off]);
            }
        }
        lemma_merge_pairs_values(r);
        assert(is_slot_value(t[0] as int));
        if merged {
            lemma_double_tile(t[0] as int);
        } else {
            assert(r =~= t.drop_first());
        }
        let m = merge_pairs(t);
        assert forall|i: int| 0 <= i < m.len() implies is_slot_value(#[trigger] m[i] as int) by {
            if i > 0 {
                assert(m[i] == merge_pairs(r)[i - 1]);
            }
        }
    }
}

/// Sliding keeps every value zero or a tile.
proof fn lemma_slide_values(s: Seq<u16>)
    requires
        all_slot_values(s),
    ensures
        all_slot_values(slide(s)),
{
    lemma_slide_len(s);
    lemma_tiles_values(s);
    lemma_merge_pairs_values(tiles(s));
    let m = merge_pairs(tiles(s));
    let r = slide(s);
    assert forall|i: int| 0 <= i < r.len() implies is_slot_value(#[trigger] r[i] as int) by {
        if i >= m.len() {
            assert(r[i] == 0);
        } else {
            assert(r[i] == m[i]);
        }
    }
}

/// The tiles of a run of tiles followed by zeros are that run.
proof fn lemma_tiles_of_padded(m: Seq<u16>, z: Seq<u16>)
    requires
        all_nonzero(m),
        all_zero(z),
    ensures
        tiles(m + z) == m,
    decreases m.len() + z.len(),
{
    if m.len() > 0 {
        assert((m + z).drop_first() =~= m.drop_first() + z);
        lemma_tiles_of_padded(m.drop_first(), z);
        assert(seq![m[0]] + m.drop_first() =~= m);
    } else if z.len() > 0 {
        assert((m + z).drop_first() =~= m + z.drop_first());
        lemma_tiles_of_padded(m, z.drop_first());
    } else {
        assert(m + z =~= seq![]);
    }
}

/// A run of tiles in which no neighbours can merge is left as it is.
proof fn lemma_merge_pairs_settled(m: Seq<u16>)
    requires
        settled(m),
    ensures
        merge_pairs(m) == m,
    decreases m.len(),
{
    if m.len() >= 2 {
        let r = m.drop_first();
        assert(settled(r)) by {
            assert forall|j: int| 0 <= j < r.len() - 1 implies !can_merge(#[trigger] r[j], r[j + 1]) by {
                assert(r[j] == m[j + 1] && r[j + 1] == m[j + 2]);
            }
        }
        assert(!can_merge(m[0], m[1]));
        lemma_merge_pairs_settled(r);
        assert(seq![m[0]] + r =~= m);
    }
}

/// A slid line in which no neighbours can merge slides to itself.
proof fn lemma_slide_twice(s: Seq<u16>)
    requires
        settled(slide(s)),
    ensures
        slide(slide(s)) == slide(s),
{
    lemma_slide_len(s);
    let t = tiles(s);
    let m = merge_pairs(t);
    let z = Seq::new((s.len() - m.len()) as nat, |i: int| 0u16);
    assert(all_nonzero(t)) by {
        lemma_tiles_nonzero(s);
    }
    lemma_merge_pairs_nonzero(t);
    assert(slide(s) == m + z);
    lemma_tiles_of_padded(m, z);
    assert(settled(m)) by {
        assert forall|j: int| 0 <= j < m.len() - 1 implies !can_merge(#[trigger] m[j], m[j + 1]) by {
            assert(slide(s)[j] == m[j] && slide(s)[j + 1] == m[j + 1]);
        }
    }
    lemma_merge_pairs_settled(m);
    assert(slide(slide(s)) =~= slide(s));
}

proof fn lemma_tiles_nonzero(s: Seq<u16>)
    ensures
        all_nonzero(tiles(s)),
    decreases s.len(),
{
    if s.len() > 0 {
        lemma_tiles_nonzero(s.drop_first());
        if s[0] != 0 {
            let t = seq![s[0]] + tiles(s.drop_first());
            assert forall|i: int| 0 <= i < t.len() implies #[trigger] t[i] != 0 by {
                if i > 0 {
                    assert(t[i] == tiles(s.drop_first())[i - 1]);
                }
            }
        }
    }
}

proof fn lemma_merge_pairs_nonzero(t: Seq<u16>)
    requires
        all_nonzero(t),
    ensures
        all_nonzero(merge_pairs(t)),
    decreases t.len(),
{
    if t.len() >= 2 {
        let r = if can_merge(t[0], t[1]) {
            t.subrange(2, t.len() as int)
        } else {
            t.drop_first()
        };
        let off: int = if can_merge(t[0], t[1]) {
            2
        } else {
            1
        };
        assert(all_nonzero(r)) by {
            assert forall|i: int| 0 <= i < r.len() implies #[trigger] r[i] != 0 by {
                assert(r[i] == t[i + off]);
            }
        }
        lemma_merge_pairs_nonzero(r);
        let m = merge_pairs(t);
        assert forall|i: int| 0 <= i < m.len() implies #[trigger] m[i] != 0 by {
            if i > 0 {
                assert(m[i] == merge_pairs(r)[i - 1]);
            }
        }
    }
}

/// Board index of the `j`-th slot of line `k` for a move toward `d`: lines are
/// rows for Left and Right and columns for Up and Down, and `j` counts from the
/// edge the tiles move toward.
pub open spec fn line_slot(d: Direction, k: int, j: int) -> int {
    match d {
        Direction::Left => slot(k, j),
        Direction::Right => slot(k, 3 - j),
        Direction::Up => slot(j, k),
        Direction::Down => slot(3 - j, k),
    }
}

/// The line that board index `i` lies on, for a move toward `d`.
pub open spec fn line_number(d: Direction, i: int) -> int {
    match d {
        Direction::Left | Direction::Right => i / 4,
        Direction::Up | Direction::Down => i % 4,
    }
}

/// The position of board index `i` within its line, for a move toward `d`.
pub open spec fn line_position(d: Direction, i: int) -> int {
    match d {
        Direction::Left => i % 4,
        Direction::Right => 3 - i % 4,
        Direction::Up => i / 4,
        Direction::Down => 3 - i / 4,
    }
}

/// Line `k` of board `b`, read from the edge the tiles move toward.
pub open spec fn line_of(b: Seq<u16>, d: Direction, k: int) -> Seq<u16> {
    Seq::new(4, |j: int| b[line_slot(d, k, j)])
}

/// Board `b` after a move toward `d`: every line slid toward that edge.
pub open spec fn shifted(b: Seq<u16>, d: Direction) -> Seq<u16> {
    Seq::new(16, |i: int| slide(line_of(b, d, line_number(d, i)))[line_position(d, i)])
}

proof fn lemma_line_slot(d: Direction, k: int, j: int)
    requires
        0 <= k < 4,
        0 <= j < 4,
    ensures
        0 <= line_slot(d, k, j) < 16,
        line_number(d, line_slot(d, k, j)) == k,
        line_position(d, line_slot(d, k, j)) == j,
{
}

proof fn lemma_index_on_line(d: Direction, i: int)
    requires
        0 <= i < 16,
    ensures
        0 <= line_number(d, i) < 4,
        0 <= line_position(d, i) < 4,
        line_slot(d, line_number(d, i), line_position(d, i)) == i,
{
}

/// Line `k` of the shifted board is line `k` of the board, slid.
proof fn lemma_line_of_shifted(b: Seq<u16>, d: Direction, k: int)
    requires
        b.len() == 16,
        0 <= k < 4,
    ensures
        line_of(shifted(b, d), d, k) == slide(line_of(b, d, k)),
{
    lemma_slide_len(line_of(b, d, k));
    assert forall|j: int| 0 <= j < 4 implies #[trigger] line_of(shifted(b, d), d, k)[j] == slide(
        line_of(b, d, k),
    )[j] by {
        lemma_line_slot(d, k, j);
    }
    assert(line_of(shifted(b, d), d, k) =~= slide(line_of(b, d, k)));
}

/// Shifting keeps every slot zero or a tile.
proof fn lemma_shifted_values(b: Seq<u16>, d: Direction)
    requires
        b.len() == 16,
        all_slot_values(b),
    ensures
        all_slot_values(shifted(b, d)),
{
    assert forall|i: int| 0 <= i < 16 implies is_slot_value(#[trigger] shifted(b, d)[i] as int) by {
        lemma_index_on_line(d, i);
        let k = line_number(d, i);
        let line = line_of(b, d, k);
        assert(all_slot_values(line)) by {
            assert forall|j: int| 0 <= j < 4 implies is_slot_value(#[trigger] line[j] as int) by {
                lemma_line_slot(d, k, j);
            }
        }
        lemma_slide_values(line);
        lemma_slide_len(line);
    }
}

/// Shifting a board twice toward the same edge leaves it as the first shift
/// did, whenever that first shift left no two neighbouring tiles that can
/// merge along the direction of travel. (A merge makes at most one new tile
/// per pair, so a line such as 2 2 4 becomes 4 4, which the next shift merges.)
pub proof fn lemma_shift_twice(b: Seq<u16>, d: Direction)
    requires
        b.len() == 16,
        forall|k: int| 0 <= k < 4 ==> settled(#[trigger] line_of(shifted(b, d), d, k)),
    ensures
        shifted(shifted(b, d), d) == shifted(b, d),
{
    let once = shifted(b, d);
    assert forall|i: int| 0 <= i < 16 implies #[trigger] shifted(once, d)[i] == once[i] by {
        lemma_index_on_line(d, i);
        let k = line_number(d, i);
        lemma_line_of_shifted(b, d, k);
        assert(settled(line_of(once, d, k)));
        lemma_slide_twice(line_of(b, d, k));
        lemma_line_of_shifted(once, d, k);
    }
    assert(shifted(once, d) =~= once);
}

/// Executable form of `line_slot`.
fn line_index(d: Direction, k: usize, j: usize) -> (r: usize)
    requires
        k < 4,
        j < 4,
    ensures
        r == line_slot(d, k as int, j as int),
        r < 16,
{
    match d {
        Direction::Left => k * 4 + j,
        Direction::Right => k * 4 + (3 - j),
        Direction::Up => j * 4 + k,
        Direction::Down => (3 - j) * 4 + k,
    }
}

/// Slides and merges every line of the board toward `dir`; returns whether
/// the board changed. Spawns no tile.
pub fn shift_tiles(state: &mut GameState, dir: Direction) -> (changed: bool)
    ensures
        final(state)@ == shifted(old(state)@, dir),
        changed == (final(state)@ != old(state)@),
        final(state).four_percentage == old(state).four_percentage,
        final(state).win == old(state).win,
        old(state).wf() ==> final(state).wf(),
{
    let ghost b = state@;
    let ghost target = shifted(b, dir);
    let mut changed = false;
    let mut k: usize = 0;
    while k < 4
        invariant
            0 <= k <= 4,
            b.len() == 16,
            state@.len() == 16,
            target == shifted(b, dir),
            forall|i: int|
                0 <= i < 16 ==> #[trigger] state@[i] == if line_number(dir, i) < k {
                    target[i]
                } else {
                    b[i]
                },
            changed == (state@ != b),
            state.four_percentage == old(state).four_percentage,
            state.win == old(state).win,
        decreases 4 - k,
    {
        let i0 = line_index(dir, k, 0);
        let i1 = line_index(dir, k, 1);
        let i2 = line_index(dir, k, 2);
        let i3 = line_index(dir, k, 3);
        let line: [u16; 4] = [state.cells[i0], state.cells[i1], state.cells[i2], state.cells[i3]];
        proof {
            lemma_line_slot(dir, k as int, 0);
            lemma_line_slot(dir, k as int, 1);
            lemma_line_slot(dir, k as int, 2);
            lemma_line_slot(dir, k as int, 3);
            assert(line@ =~= line_of(b, dir, k as int));
        }
        let moved = slide_line(line);
        let ghost before = state@;
        state.cells[i0] = moved[0];
        state.cells[i1] = moved[1];
        state.cells[i2] = moved[2];
        state.cells[i3] = moved[3];
        let differs = moved[0] != line[0] || moved[1] != line[1] || moved[2] != line[2]
            || moved[3] != line[3];
        proof {
            assert forall|i: int| 0 <= i < 16 implies #[trigger] state@[i] == if line_number(
                dir,
                i,
            ) < k + 1 {
                target[i]
            } else {
                b[i]
            } by {
                lemma_index_on_line(dir, i);
                if line_number(dir, i) == k {
                    let j = line_position(dir, i);
                    assert(state@[i] == moved@[j]);
                } else {
                    assert(state@[i] == before[i]);
                }
            }
            if differs {
                let j: int = if moved[0] != line[0] {
                    0
                } else if moved[1] != line[1] {
                    1
                } else if moved[2] != line[2] {
                    2
                } else {
                    3
                };
                assert(state@[line_slot(dir, k as int, j)] != b[line_slot(dir, k as int, j)]);
            } else {
                assert(state@ =~= before);
            }
        }
        changed = changed || differs;
        k = k + 1;
    }
    proof {
        assert(state@ =~= target);
        if old(state).wf() {
            lemma_shifted_values(b, dir);
        }
    }
    changed
}


/// The tile spawned for a draw `roll` out of 100: a 4 when `roll` falls below
/// `four_percentage`, else a 2.
pub open spec fn spawn_value(roll: int, four_percentage: u8) -> u16 {
    if roll < four_percentage {
        4
    } else {
        2
    }
}

/// Whether a spawned tile may hold `v` when a 4 comes with a chance of
/// `four_percentage` in 100.
pub open spec fn possible_spawn(v: u16, four_percentage: u8) -> bool {
    ||| v == 4 && four_percentage > 0
    ||| v == 2 && four_percentage < 100
}

/// Relies on `rand::Rng::gen_range` with `rand::thread_rng()`: a value drawn
/// from `0..n`. It panics on an empty range, which `requires` rules out.
#[verifier::external_body]
fn random_below(n: usize) -> (r: usize)
    requires
        n > 0,
    ensures
        r < n,
{
    rand::Rng::gen_range(&mut rand::thread_rng(), 0, n)
}

/// Spawns a tile in the `pick`-th empty slot (row-major order): a 4 when
/// `roll` is below the board's four percentage, else a 2.
pub fn spawn_tile_at(state: &mut GameState, roll: u8, pick: usize)
    requires
        pick < empty_cells(old(state)@).len(),
    ensures
        ({
            let (r, c) = empty_cells(old(state)@)[pick as int];
            final(state)@ == old(state)@.update(
                slot(r as int, c as int),
                spawn_value(roll as int, old(state).four_percentage),
            )
        }),
        final(state).four_percentage == old(state).four_percentage,
        final(state).win == old(state).win,
        old(state).wf() ==> final(state).wf(),
{
    let cells = state.get_empty_cells();
    proof {
        lemma_empty_cells(state@);
    }
    let (r, c) = cells[pick];
    let value: u16 = if roll < state.four_percentage {
        4
    } else {
        2
    };
    proof {
        reveal_with_fuel(is_tile, 3);
    }
    state.set_cell(r, c, crate::state::Cell::Cell(value));
}

/// Spawns a 2 or a 4 in a randomly chosen empty slot; fails with `BoardFull`,
/// leaving the board as it is, when no slot is empty.
pub fn add_tile(state: &mut GameState) -> (r: Result<(), BoardFull>)
    ensures
        r is Err <==> !has_empty(old(state)@),
        r is Err ==> *final(state) == *old(state),
        r is Ok ==> exists|k: int|
            0 <= k < empty_cells(old(state)@).len() && {
                let (row, col) = #[trigger] empty_cells(old(state)@)[k];
                let i = slot(row as int, col as int);
                &&& final(state)@ == old(state)@.update(i, final(state)@[i])
                &&& possible_spawn(final(state)@[i], old(state).four_percentage)
            },
        final(state).four_percentage == old(state).four_percentage,
        final(state).win == old(state).win,
        old(state).wf() ==> final(state).wf(),
{
    proof {
        lemma_empty_cells(state@);
    }
    let cells = state.get_empty_cells();
    if cells.len() == 0 {
        return Err(BoardFull);
    }
    let roll = random_below(100) as u8;
    let pick = random_below(cells.len());
    let ghost before = *state;
    spawn_tile_at(state, roll, pick);
    let ghost (row, col) = empty_cells(before@)[pick as int];
    assert(state@[slot(row as int, col as int)] == spawn_value(roll as int, before.four_percentage));
    Ok(())
}

/// A new game: an empty board with the default rules and two tiles, each a 2
/// or a 4, in two different slots.
pub fn new_game() -> (r: GameState)
    ensures
        r.wf(),
        r.four_percentage == FOUR_PERCENTAGE,
        r.win == WIN,
        exists|i: int, j: int|
            0 <= i < 16 && 0 <= j < 16 && i != j && (#[trigger] r@[i] == 2 || r@[i] == 4) && (
            #[trigger] r@[j] == 2 || r@[j] == 4) && forall|k: int|
                0 <= k < 16 && k != i && k != j ==> #[trigger] r@[k] == 0,
{
    let mut state = GameState::new();
    let ghost s0 = state@;
    assert(s0[0] == 0);
    let _ = add_tile(&mut state);
    let ghost s1 = state@;
    proof {
        lemma_empty_cells(s0);
    }
    let ghost i = choose|k: int|
        0 <= k < empty_cells(s0).len() && {
            let (row, col) = #[trigger] empty_cells(s0)[k];
            let i = slot(row as int, col as int);
            &&& s1 == s0.update(i, s1[i])
            &&& possible_spawn(s1[i], FOUR_PERCENTAGE)
        };
    let ghost si = slot(empty_cells(s0)[i].0 as int, empty_cells(s0)[i].1 as int);
    assert(s1[(si + 1) % 16] == 0);
    let _ = add_tile(&mut state);
    let ghost s2 = state@;
    proof {
        lemma_empty_cells(s1);
    }
    let ghost j = choose|k: int|
        0 <= k < empty_cells(s1).len() && {
            let (row, col) = #[trigger] empty_cells(s1)[k];
            let i = slot(row as int, col as int);
            &&& s2 == s1.update(i, s2[i])
            &&& possible_spawn(s2[i], FOUR_PERCENTAGE)
        };
    let ghost sj = slot(empty_cells(s1)[j].0 as int, empty_cells(s1)[j].1 as int);
    assert(s2[si] == 2 || s2[si] == 4);
    assert(s2[sj] == 2 || s2[sj] == 4);
    state
}

/// Classifies the board; the same as `GameState::check_state`.
pub fn check_state(state: &GameState) -> (r: MoveState)
    ensures
        r == classify(state@, state.win),
        r is Win ==> has_value(state@, state.win),
        has_value(state@, state.win) ==> r is Win,
        has_empty(state@) ==> !(r is Lose),
{
    state.check_state()
}


/// Whether a move toward `dir` is worth trying after outcome `last`: false
/// only when `last` says that no move is possible along that axis.
pub fn axis_open(last: MoveState, dir: Direction) -> (r: bool)
    ensures
        r == match last {
            MoveState::CanMove { vertical, horizontal } => match dir {
                Direction::Left | Direction::Right => horizontal,
                Direction::Up | Direction::Down => vertical,
            },
            _ => true,
        },
{
    match last {
        MoveState::CanMove { vertical, horizontal } => match dir {
            Direction::Left | Direction::Right => horizontal,
            Direction::Up | Direction::Down => vertical,
        },
        _ => true,
    }
}

/// One turn of play: shifts toward `dir`; when the board changed, spawns a
/// tile in an empty slot, if one is left; then classifies the board.
pub fn play_turn(state: &mut GameState, dir: Direction) -> (r: MoveState)
    ensures
        ({
            let moved = shifted(old(state)@, dir);
            &&& moved == old(state)@ ==> final(state)@ == old(state)@
            &&& moved != old(state)@ && !has_empty(moved) ==> final(state)@ == moved
            &&& moved != old(state)@ && has_empty(moved) ==> exists|k: int|
                0 <= k < empty_cells(moved).len() && {
                    let (row, col) = #[trigger] empty_cells(moved)[k];
                    let i = slot(row as int, col as int);
                    &&& final(state)@ == moved.update(i, final(state)@[i])
                    &&& possible_spawn(final(state)@[i], old(state).four_percentage)
                }
        }),
        r == classify(final(state)@, final(state).win),
        final(state).four_percentage == old(state).four_percentage,
        final(state).win == old(state).win,
        old(state).wf() ==> final(state).wf(),
{
    if shift_tiles(state, dir) {
        let _ = add_tile(state);
    }
    state.check_state()
}

} // verus!
