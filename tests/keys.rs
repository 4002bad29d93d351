use game2048::keys::{arrow_direction, is_quit_key};
use game2048::logic::Direction;

#[test]
fn quit_keys() {
    assert!(is_quit_key(b'q'));
    assert!(is_quit_key(b'Q'));
    assert!(!is_quit_key(b'x'));
}

#[test]
fn arrow_codes() {
    assert_eq!(arrow_direction(75), Some(Direction::Left));
    assert_eq!(arrow_direction(72), Some(Direction::Up));
    assert_eq!(arrow_direction(77), Some(Direction::Right));
    assert_eq!(arrow_direction(80), Some(Direction::Down));
    assert_eq!(arrow_direction(0), None);
}
