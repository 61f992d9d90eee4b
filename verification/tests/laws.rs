use rusty_go::board::{Board, Stone};
use rusty_go::group::has_liberties;
use rusty_go::rules::{handle_click, handle_keyboard, KeyOutcome};
use rusty_go::scoring::{calculate_territory, on_game_over};

fn every_stone_has_a_liberty(b: &Board) -> bool {
    for y in 0..b.size {
        for x in 0..b.size {
            if b.grid[y][x] != Stone::Empty && !has_liberties(b, x, y) {
                return false;
            }
        }
    }
    true
}

fn stones(b: &Board, s: Stone) -> usize {
    b.grid.iter().map(|row| row.iter().filter(|c| **c == s).count()).sum()
}

#[test]
fn positions_stay_legal_through_a_game() {
    let mut b = Board::default();
    assert!(every_stone_has_a_liberty(&b));
    // a short game with captures, a refused suicide and a ko
    let moves: [(i32, i32); 16] = [
        (1, 0), (0, 0), (0, 1), (5, 5), (2, 1), (2, 0), (3, 0), (1, 1),
        (1, 2), (6, 6), (0, 0), (7, 7), (3, 1), (8, 8), (2, 2), (9, 9),
    ];
    for &(x, y) in moves.iter() {
        handle_click(&mut b, x, y);
        assert!(every_stone_has_a_liberty(&b));
    }
    assert_eq!(handle_keyboard(&mut b, true, false), KeyOutcome::Passed);
    assert!(every_stone_has_a_liberty(&b));
}

#[test]
fn a_move_adds_one_stone_and_only_removes_opponents() {
    let mut b = Board::default();
    b.grid[0][1] = Stone::White;
    b.grid[0][0] = Stone::Black;
    b.grid[0][2] = Stone::Black;
    b.grid[5][5] = Stone::Black;
    let black_before = stones(&b, Stone::Black);
    let white_before = stones(&b, Stone::White);
    assert!(handle_click(&mut b, 1, 1));
    assert_eq!(stones(&b, Stone::Black), black_before + 1);
    assert_eq!(stones(&b, Stone::White), white_before - b.black_captures);
    assert_eq!(b.black_captures, 1);
}

#[test]
fn played_stone_has_a_liberty_after_capturing_into_a_closed_point() {
    let mut b = Board::default();
    b.grid[0][0] = Stone::White;
    b.grid[0][1] = Stone::Black;
    b.grid[0][2] = Stone::White;
    b.grid[1][1] = Stone::White;
    b.grid[2][0] = Stone::White;
    assert!(handle_click(&mut b, 0, 1));
    assert!(has_liberties(&b, 0, 1));
    assert!(has_liberties(&b, 1, 0));
}

#[test]
fn neighbouring_groups_with_liberties_survive() {
    let mut b = Board::default();
    // white (5,4) is taken, white (6,5) keeps its liberties
    b.grid[4][5] = Stone::White;
    b.grid[4][4] = Stone::Black;
    b.grid[4][6] = Stone::Black;
    b.grid[3][5] = Stone::Black;
    b.grid[5][6] = Stone::White;
    assert!(handle_click(&mut b, 5, 5));
    assert_eq!(b.grid[4][5], Stone::Empty);
    assert_eq!(b.grid[5][6], Stone::White);
    assert!(has_liberties(&b, 6, 5));
    assert_eq!(b.ko_forbidden, Some((5, 4)));
}

fn consistent(b: &Board) -> bool {
    let ko_ok = match b.ko_forbidden {
        Some((x, y)) => x < b.size && y < b.size && b.grid[y][x] == Stone::Empty,
        None => true,
    };
    b.game_over == (b.consecutive_passes >= 2)
        && b.consecutive_passes <= 2
        && (!b.overlay_spawned || b.game_over)
        && b.turn != Stone::Empty
        && ko_ok
}

#[test]
fn every_reached_state_is_consistent() {
    let mut b = Board::default();
    assert!(consistent(&b));
    let moves: [(i32, i32); 10] = [(1, 0), (0, 0), (0, 1), (5, 5), (2, 1), (2, 0), (3, 0), (1, 1), (0, 0), (6, 6)];
    for &(x, y) in moves.iter() {
        handle_click(&mut b, x, y);
        assert!(consistent(&b));
        on_game_over(&mut b);
        assert!(consistent(&b));
    }
    handle_keyboard(&mut b, true, false);
    assert!(consistent(&b));
    handle_keyboard(&mut b, true, false);
    assert!(consistent(&b));
    assert!(b.game_over);
    assert!(on_game_over(&mut b).is_some());
    assert!(consistent(&b));
    assert!(!handle_click(&mut b, 9, 9));
    handle_keyboard(&mut b, false, true);
    assert!(consistent(&b));
}

#[test]
fn stones_on_board_are_placements_less_captures() {
    let mut b = Board::default();
    let mut placed_black = 0;
    let mut placed_white = 0;
    let moves: [(i32, i32); 14] = [
        (1, 0), (0, 0), (0, 1), (5, 5), (2, 1), (2, 0), (3, 0), (1, 1),
        (1, 2), (6, 6), (0, 0), (7, 7), (3, 1), (8, 8),
    ];
    for &(x, y) in moves.iter() {
        let mover = b.turn;
        if handle_click(&mut b, x, y) {
            if mover == Stone::Black { placed_black += 1; } else { placed_white += 1; }
        }
        assert_eq!(stones(&b, Stone::Black) + b.white_captures, placed_black);
        assert_eq!(stones(&b, Stone::White) + b.black_captures, placed_white);
    }
    assert!(b.black_captures + b.white_captures > 0);
}

#[test]
fn swapping_colours_swaps_territories() {
    let mut b = Board::default();
    for y in 0..19 {
        b.grid[y][2] = Stone::Black;
        b.grid[y][4] = Stone::White;
    }
    b.grid[0][10] = Stone::White;
    let (bt, wt) = calculate_territory(&b);
    let mut s = Board::default();
    for y in 0..19 {
        for x in 0..19 {
            s.grid[y][x] = match b.grid[y][x] {
                Stone::Black => Stone::White,
                Stone::White => Stone::Black,
                Stone::Empty => Stone::Empty,
            };
        }
    }
    assert_eq!(calculate_territory(&s), (wt, bt));
    assert_eq!((bt, wt), (38, 265));
}
