use rusty_go::board::{Board, Stone};
use rusty_go::rules::handle_keyboard;
use rusty_go::scoring::{calculate_territory, make_score, on_game_over};

fn place(b: &mut Board, x: usize, y: usize, s: Stone) {
    b.grid[y][x] = s;
}

#[test]
fn empty_board_has_no_territory() {
    let b = Board::default();
    assert_eq!(calculate_territory(&b), (0, 0));
}

#[test]
fn walls_split_the_board_into_territories() {
    let mut b = Board::default();
    for y in 0..19 {
        place(&mut b, 2, y, Stone::Black);
        place(&mut b, 4, y, Stone::White);
    }
    // columns 0-1 are Black's, column 3 is contested, columns 5-18 are White's
    assert_eq!(calculate_territory(&b), (38, 266));
}

#[test]
fn region_touching_both_colours_is_no_ones() {
    let mut b = Board::default();
    place(&mut b, 3, 3, Stone::Black);
    place(&mut b, 10, 10, Stone::White);
    assert_eq!(calculate_territory(&b), (0, 0));
}

#[test]
fn eye_in_the_corner_counts() {
    let mut b = Board::default();
    place(&mut b, 1, 0, Stone::Black);
    place(&mut b, 1, 1, Stone::Black);
    place(&mut b, 0, 1, Stone::Black);
    place(&mut b, 5, 5, Stone::White);
    // (0,0) is Black's; the rest of the board touches both colours
    assert_eq!(calculate_territory(&b), (1, 0));
}

#[test]
fn make_score_black_wins_by_half_point() {
    let s = make_score(10, 3, 0, 0, 65);
    assert_eq!(s.black_total, 10);
    assert_eq!(s.white_total_tenths, 95);
    assert!(s.black_wins);
    assert_eq!(s.margin_tenths, 5);
}

#[test]
fn make_score_white_wins_with_komi() {
    let s = make_score(20, 15, 2, 3, 65);
    assert_eq!(s.black_total, 22);
    assert_eq!(s.white_total_tenths, 245);
    assert!(!s.black_wins);
    assert_eq!(s.margin_tenths, 25);
}

#[test]
fn equal_totals_go_to_white() {
    let s = make_score(5, 5, 0, 0, 0);
    assert!(!s.black_wins);
    assert_eq!(s.margin_tenths, 0);
}

#[test]
fn half_point_komi_never_draws() {
    for bt in 0..30 {
        for wt in 0..30 {
            let s = make_score(bt, wt, 1, 2, 65);
            assert_ne!(s.black_total * 10, s.white_total_tenths);
            assert!(s.margin_tenths > 0);
        }
    }
}

#[test]
fn game_over_scores_once() {
    let mut b = Board::default();
    assert!(on_game_over(&mut b).is_none());
    assert!(!b.overlay_spawned);
    for y in 0..19 {
        place(&mut b, 2, y, Stone::Black);
        place(&mut b, 4, y, Stone::White);
    }
    b.black_captures = 4;
    b.white_captures = 1;
    handle_keyboard(&mut b, true, false);
    handle_keyboard(&mut b, true, false);
    assert!(b.game_over);
    let s = on_game_over(&mut b).expect("score");
    assert!(b.overlay_spawned);
    assert_eq!(b.black_territory, 38);
    assert_eq!(b.white_territory, 266);
    assert_eq!(s.black_total, 42);
    assert_eq!(s.white_total_tenths, 2735);
    assert!(!s.black_wins);
    assert_eq!(s.margin_tenths, 2315);
    assert!(on_game_over(&mut b).is_none());
}
