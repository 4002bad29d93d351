use vstd::prelude::*;

use crate::logic::Direction;

verus! {

/// Code of the upper-case quit key.
pub const UPPER_Q: u8 = 81;

/// Code of the lower-case quit key.
pub const LOWER_Q: u8 = 113;

/// Code that announces an arrow key; the arrow's own code follows it.
pub const ARROW_PREFIX: u8 = 224;

/// Code of the left arrow, after `ARROW_PREFIX`.
pub const ARROW_LEFT: u8 = 75;

/// Code of the up arrow, after `ARROW_PREFIX`.
pub const ARROW_UP: u8 = 72;

/// Code of the right arrow, after `ARROW_PREFIX`.
pub const ARROW_RIGHT: u8 = 77;

/// Code of the down arrow, after `ARROW_PREFIX`.
pub const ARROW_DOWN: u8 = 80;

/// Whether `code` is a key that ends the game.
pub fn is_quit_key(code: u8) -> (r: bool)
    ensures
        r == (code == UPPER_Q || code == LOWER_Q),
{
    code == UPPER_Q || code == LOWER_Q
}

/// The direction of the arrow whose code follows `ARROW_PREFIX`, if `code`
/// is one.
pub fn arrow_direction(code: u8) -> (r: Option<Direction>)
    ensures
        code == ARROW_LEFT ==> r == Some(Direction::Left),
        code == ARROW_UP ==> r == Some(Direction::Up),
        code == ARROW_RIGHT ==> r == Some(Direction::Right),
        code == ARROW_DOWN ==> r == Some(Direction::Down),
        code != ARROW_LEFT && code != ARROW_UP && code != ARROW_RIGHT && code != ARROW_DOWN
            ==> r is None,
{
    if code == ARROW_LEFT {
        Some(Direction::Left)
    } else if code == ARROW_UP {
        Some(Direction::Up)
    } else if code == ARROW_RIGHT {
        Some(Direction::Right)
    } else if code == ARROW_DOWN {
        Some(Direction::Down)
    } else {
        None
    }
}

} // verus!
