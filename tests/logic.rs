use game2048::logic::{
    add_tile, axis_open, check_state, new_game, play_turn, shift_tiles, spawn_tile_at, BoardFull,
    Direction,
};
use game2048::state::{Cell, GameState, MoveState};

#[test]
fn empty() {
    let mut state = GameState::from_cells(
        [ 0, 0, 0, 0
        , 0, 0, 0, 0
        , 0, 0, 0, 0
        , 0, 0, 0, 0]);
    let expected = GameState::from_cells(
        [ 0, 0, 0, 0
        , 0, 0, 0, 0
        , 0, 0, 0, 0
        , 0, 0, 0, 0]);
    shift_tiles(&mut state, Direction::Left);
    assert_eq!(state, expected);
    shift_tiles(&mut state, Direction::Right);
    assert_eq!(state, expected);
    shift_tiles(&mut state, Direction::Up);
    assert_eq!(state, expected);
    shift_tiles(&mut state, Direction::Down);
    assert_eq!(state, expected);
}

#[test]
fn empty_board_reports_no_change() {
    for dir in [Direction::Left, Direction::Up, Direction::Right, Direction::Down] {
        let mut state = GameState::new();
        assert!(!shift_tiles(&mut state, dir));
        assert_eq!(state.cells, [0; 16]);
    }
}

#[test]
fn left() {
    let mut state = GameState::from_cells(
        [ 2, 2, 2, 4
        , 4, 4, 4, 4
        , 0, 0, 2, 4
        , 4, 0, 0, 2]);
    let expected = GameState::from_cells(
        [ 4, 2, 4, 0
        , 8, 8, 0, 0
        , 2, 4, 0, 0
        , 4, 2, 0, 0]);
    shift_tiles(&mut state, Direction::Left);
    assert_eq!(state, expected);
}

#[test]
fn left_reports_change() {
    let mut state = GameState::from_cells([2, 2, 2, 4, 4, 4, 4, 4, 0, 0, 2, 4, 4, 0, 0, 2]);
    assert!(shift_tiles(&mut state, Direction::Left));
    assert_eq!(state.cells, [4, 2, 4, 0, 8, 8, 0, 0, 2, 4, 0, 0, 4, 2, 0, 0]);
}

#[test]
fn right() {
    let mut state = GameState::from_cells([2, 2, 2, 4, 4, 4, 4, 4, 2, 4, 0, 0, 2, 0, 0, 4]);
    assert!(shift_tiles(&mut state, Direction::Right));
    assert_eq!(state.cells, [0, 2, 4, 4, 0, 0, 8, 8, 0, 0, 2, 4, 0, 0, 2, 4]);
}

#[test]
fn up() {
    let mut state = GameState::from_cells([2, 4, 0, 2, 2, 4, 0, 0, 2, 4, 2, 0, 4, 4, 4, 2]);
    assert!(shift_tiles(&mut state, Direction::Up));
    assert_eq!(state.cells, [4, 8, 2, 4, 2, 8, 4, 0, 4, 0, 0, 0, 0, 0, 0, 0]);
}

#[test]
fn down() {
    let mut state = GameState::from_cells([2, 4, 0, 2, 2, 4, 0, 0, 2, 4, 2, 0, 4, 4, 4, 2]);
    assert!(shift_tiles(&mut state, Direction::Down));
    assert_eq!(state.cells, [0, 0, 0, 0, 2, 0, 0, 0, 4, 8, 2, 0, 4, 8, 4, 4]);
}

#[test]
fn blocked_move_reports_no_change() {
    let mut state = GameState::from_cells([2, 4, 8, 16, 0, 0, 0, 0, 0, 0, 0, 0, 0, 0, 0, 0]);
    assert!(!shift_tiles(&mut state, Direction::Up));
    assert!(!shift_tiles(&mut state, Direction::Left));
    assert_eq!(state.cells[3], 16);
    assert!(shift_tiles(&mut state, Direction::Down));
    assert_eq!(state.cells[12..16], [2, 4, 8, 16]);
}

#[test]
fn largest_tiles_do_not_merge() {
    let mut state = GameState::from_cells([32768, 32768, 0, 0, 16384, 16384, 0, 0, 0, 0, 0, 0, 0, 0, 0, 0]);
    assert!(shift_tiles(&mut state, Direction::Left));
    assert_eq!(state.cells[0..8], [32768, 32768, 0, 0, 32768, 0, 0, 0]);
}

#[test]
fn shift_twice() {
    let mut state = GameState::from_cells([2, 2, 2, 4, 4, 4, 4, 4, 0, 0, 2, 4, 4, 0, 0, 2]);
    shift_tiles(&mut state, Direction::Left);
    let once = state;
    let mut again = state;
    shift_tiles(&mut again, Direction::Left);
    let mut third = GameState::from_cells([2, 0, 0, 2, 4, 8, 0, 4, 0, 0, 0, 2, 16, 0, 0, 0]);
    assert!(shift_tiles(&mut third, Direction::Left));
    assert!(!shift_tiles(&mut third, Direction::Left));
    assert_eq!(third.cells, [4, 0, 0, 0, 4, 8, 4, 0, 2, 0, 0, 0, 16, 0, 0, 0]);
    // the first shift leaves 8 8 side by side, which the second merges
    assert_ne!(once, again);
    assert_eq!(again.cells[4..8], [16, 0, 0, 0]);
}

#[test]
fn shift_keeps_rules() {
    let mut state = GameState::from_cells([2, 2, 0, 0, 0, 0, 0, 0, 0, 0, 0, 0, 0, 0, 0, 0]);
    state.four_percentage = 40;
    state.win = 4;
    shift_tiles(&mut state, Direction::Left);
    assert_eq!(state.four_percentage, 40);
    assert_eq!(state.win, 4);
    assert_eq!(check_state(&state), MoveState::Win);
}

#[test]
fn logic_win() {
    let mut state = GameState::new();
    state.set_cell(3, 3, Cell::Cell(2048));
    assert_eq!(check_state(&state), MoveState::Win);
}

#[test]
fn logic_lose() {
    let state = GameState::from_cells(
        [ 2, 4, 2, 4
        , 4, 2, 4, 2
        , 2, 4, 2, 4
        , 4, 2, 4, 2]);
    assert_eq!(check_state(&state), MoveState::Lose);
}

#[test]
fn logic_in_progress_move_vertical() {
    let state = GameState::from_cells(
        [ 2, 4, 2, 4
        , 2, 8, 4, 2
        , 2, 4, 2, 4
        , 4, 2, 4, 2]);
    assert_eq!(
        check_state(&state),
        MoveState::CanMove {
            horizontal: false,
            vertical: true,
        }
    );
}

#[test]
fn logic_in_progress_move_horizontal() {
    let state = GameState::from_cells(
        [ 2, 2, 2, 4
        , 4, 8, 4, 2
        , 2, 4, 2, 4
        , 4, 2, 4, 2]);
    assert_eq!(
        check_state(&state),
        MoveState::CanMove {
            horizontal: true,
            vertical: false,
        }
    );
}

#[test]
fn logic_in_progress_move_both() {
    let state = GameState::from_cells(
        [ 2, 4, 2, 4
        , 4, 4, 4, 2
        , 2, 4, 2, 4
        , 4, 2, 4, 2]);
    assert_eq!(
        check_state(&state),
        MoveState::CanMove {
            horizontal: true,
            vertical: true,
        }
    );
}

#[test]
fn spawn_tile_at_picks_the_listed_slot() {
    let mut state = GameState::from_cells([0, 4, 0, 4, 4, 0, 4, 0, 0, 4, 0, 4, 4, 0, 4, 0]);
    spawn_tile_at(&mut state, 50, 3);
    assert_eq!(state.get_cell(1, 3), Some(Cell::Cell(2)));
    spawn_tile_at(&mut state, 9, 0);
    assert_eq!(state.get_cell(0, 0), Some(Cell::Cell(4)));
    spawn_tile_at(&mut state, 10, 0);
    assert_eq!(state.get_cell(0, 2), Some(Cell::Cell(2)));
    assert_eq!(state.get_empty_cells().len(), 5);
}

#[test]
fn add_tile_fills_the_only_empty_slot() {
    let mut cells = [2u16; 16];
    cells[9] = 0;
    let mut state = GameState::from_cells(cells);
    assert_eq!(add_tile(&mut state), Ok(()));
    assert!(state.cells[9] == 2 || state.cells[9] == 4);
    assert_eq!(add_tile(&mut state), Err(BoardFull));
}

#[test]
fn add_tile_with_certain_four() {
    let mut state = GameState::new();
    state.four_percentage = 100;
    for _ in 0..16 {
        assert_eq!(add_tile(&mut state), Ok(()));
    }
    assert_eq!(state.cells, [4; 16]);
    assert_eq!(add_tile(&mut state), Err(BoardFull));
}

#[test]
fn new_game_has_two_small_tiles() {
    let state = new_game();
    let tiles: Vec<u16> = state.cells.iter().copied().filter(|v| *v != 0).collect();
    assert_eq!(tiles.len(), 2);
    assert!(tiles.iter().all(|v| *v == 2 || *v == 4));
    assert_eq!(state.get_empty_cells().len(), 14);
}

#[test]
fn axis_open_follows_last_outcome() {
    let only_vertical = MoveState::CanMove {
        vertical: true,
        horizontal: false,
    };
    assert!(!axis_open(only_vertical, Direction::Left));
    assert!(!axis_open(only_vertical, Direction::Right));
    assert!(axis_open(only_vertical, Direction::Up));
    assert!(axis_open(only_vertical, Direction::Down));
    assert!(axis_open(MoveState::Win, Direction::Left));
}

#[test]
fn play_turn_spawns_after_a_change_only() {
    let mut state = GameState::from_cells([2, 4, 8, 16, 0, 0, 0, 0, 0, 0, 0, 0, 0, 0, 0, 0]);
    let r = play_turn(&mut state, Direction::Up);
    assert_eq!(state.cells, [2, 4, 8, 16, 0, 0, 0, 0, 0, 0, 0, 0, 0, 0, 0, 0]);
    assert_eq!(
        r,
        MoveState::CanMove {
            vertical: true,
            horizontal: true,
        }
    );
    let r = play_turn(&mut state, Direction::Down);
    assert_eq!(state.cells[12..16], [2, 4, 8, 16]);
    assert_eq!(state.get_empty_cells().len(), 11);
    assert!(matches!(r, MoveState::CanMove { .. }));
}

#[test]
fn play_turn_reaching_win() {
    let mut state = GameState::from_cells([1024, 1024, 0, 0, 0, 0, 0, 0, 0, 0, 0, 0, 0, 0, 0, 0]);
    assert_eq!(play_turn(&mut state, Direction::Left), MoveState::Win);
    assert_eq!(state.cells[0], 2048);
}
