use rusty_go::board::{column_label, Board, Stone};
use rusty_go::group::{has_liberties, remove_group, scan_group};
use rusty_go::rules::{attempt_move, handle_click, handle_keyboard, hover_preview, KeyOutcome};

fn place(b: &mut Board, x: usize, y: usize, s: Stone) {
    b.grid[y][x] = s;
}

fn count(b: &Board, s: Stone) -> usize {
    let mut c = 0;
    for row in &b.grid {
        for cell in row {
            if *cell == s {
                c += 1;
            }
        }
    }
    c
}

#[test]
fn default_board_is_empty_with_black_to_move() {
    let b = Board::default();
    assert_eq!(b.size, 19);
    assert_eq!(b.grid.len(), 19);
    assert!(b.grid.iter().all(|row| row.len() == 19 && row.iter().all(|s| *s == Stone::Empty)));
    assert_eq!(b.turn, Stone::Black);
    assert_eq!(b.black_captures, 0);
    assert_eq!(b.white_captures, 0);
    assert_eq!(b.consecutive_passes, 0);
    assert_eq!(b.ko_forbidden, None);
    assert!(!b.game_over);
    assert_eq!(b.komi_tenths, 65);
    assert!(!b.overlay_spawned);
}

#[test]
fn lone_stone_has_liberties() {
    let mut b = Board::default();
    place(&mut b, 9, 9, Stone::Black);
    assert!(has_liberties(&b, 9, 9));
}

#[test]
fn surrounded_corner_stone_has_no_liberty() {
    let mut b = Board::default();
    place(&mut b, 0, 0, Stone::White);
    place(&mut b, 1, 0, Stone::Black);
    place(&mut b, 0, 1, Stone::Black);
    assert!(!has_liberties(&b, 0, 0));
    assert!(has_liberties(&b, 1, 0));
}

#[test]
fn group_liberty_is_shared_by_all_its_stones() {
    let mut b = Board::default();
    // a white chain along the edge, closed in but for one point
    place(&mut b, 0, 0, Stone::White);
    place(&mut b, 1, 0, Stone::White);
    place(&mut b, 2, 0, Stone::White);
    place(&mut b, 0, 1, Stone::Black);
    place(&mut b, 1, 1, Stone::Black);
    place(&mut b, 2, 1, Stone::Black);
    assert!(has_liberties(&b, 0, 0));
    assert!(has_liberties(&b, 2, 0));
    place(&mut b, 3, 0, Stone::Black);
    assert!(!has_liberties(&b, 0, 0));
    assert!(!has_liberties(&b, 1, 0));
    assert!(!has_liberties(&b, 2, 0));
}

#[test]
fn scan_group_finds_whole_group_once() {
    let mut b = Board::default();
    place(&mut b, 3, 3, Stone::Black);
    place(&mut b, 3, 4, Stone::Black);
    place(&mut b, 4, 4, Stone::Black);
    place(&mut b, 5, 5, Stone::Black);
    place(&mut b, 2, 3, Stone::White);
    let scan = scan_group(&b, 3, 3);
    let mut cells = scan.cells.clone();
    cells.sort();
    assert_eq!(cells, vec![(3, 3), (3, 4), (4, 4)]);
    assert!(scan.touches_empty);
    assert!(scan.touches_black);
    assert!(scan.touches_white);
}

#[test]
fn remove_group_clears_exactly_the_group() {
    let mut b = Board::default();
    place(&mut b, 3, 3, Stone::White);
    place(&mut b, 4, 3, Stone::White);
    place(&mut b, 5, 3, Stone::Black);
    place(&mut b, 7, 7, Stone::White);
    let mut removed = remove_group(&mut b, 3, 3);
    assert_eq!(removed[0], (3, 3));
    removed.sort();
    assert_eq!(removed, vec![(3, 3), (4, 3)]);
    assert_eq!(b.grid[3][3], Stone::Empty);
    assert_eq!(b.grid[3][4], Stone::Empty);
    assert_eq!(b.grid[3][5], Stone::Black);
    assert_eq!(b.grid[7][7], Stone::White);
    assert_eq!(b.black_captures, 0);
}

#[test]
fn capture_of_one_stone_sets_ko_point() {
    let mut b = Board::default();
    place(&mut b, 0, 0, Stone::White);
    place(&mut b, 1, 0, Stone::Black);
    assert!(attempt_move(&mut b, 0, 1));
    assert_eq!(b.grid[0][0], Stone::Empty);
    assert_eq!(b.grid[1][0], Stone::Black);
    assert_eq!(b.black_captures, 1);
    assert_eq!(b.ko_forbidden, Some((0, 0)));
    // attempt_move alone does not pass the turn
    assert_eq!(b.turn, Stone::Black);
}

#[test]
fn suicide_is_refused_and_board_restored() {
    let mut b = Board::default();
    place(&mut b, 1, 0, Stone::Black);
    place(&mut b, 0, 1, Stone::Black);
    b.turn = Stone::White;
    b.ko_forbidden = Some((10, 10));
    let before = b.grid.clone();
    assert!(!attempt_move(&mut b, 0, 0));
    assert_eq!(b.grid, before);
    assert_eq!(b.ko_forbidden, Some((10, 10)));
    assert_eq!(b.white_captures, 0);
    assert_eq!(b.turn, Stone::White);
}

#[test]
fn suicide_click_does_not_pass_turn() {
    let mut b = Board::default();
    place(&mut b, 1, 0, Stone::Black);
    place(&mut b, 0, 1, Stone::Black);
    b.turn = Stone::White;
    b.consecutive_passes = 1;
    assert!(!handle_click(&mut b, 0, 0));
    assert_eq!(b.turn, Stone::White);
    assert_eq!(b.consecutive_passes, 1);
    assert_eq!(b.grid[0][0], Stone::Empty);
}

#[test]
fn filling_own_last_liberty_is_allowed_when_it_captures() {
    let mut b = Board::default();
    // white stone at (0,0) with its only liberty at (0,1); black stone at
    // (1,0) whose other liberties are filled by white
    place(&mut b, 0, 0, Stone::White);
    place(&mut b, 1, 0, Stone::Black);
    place(&mut b, 2, 0, Stone::White);
    place(&mut b, 1, 1, Stone::White);
    place(&mut b, 0, 2, Stone::White);
    // black at (0,1) has no liberty of its own but captures (0,0)
    assert!(handle_click(&mut b, 0, 1));
    assert_eq!(b.grid[0][0], Stone::Empty);
    assert_eq!(b.grid[1][0], Stone::Black);
    assert_eq!(b.black_captures, 1);
    assert!(has_liberties(&b, 0, 1));
}

#[test]
fn ko_recapture_is_refused_then_allowed_after_another_move() {
    let mut k = Board::default();
    place(&mut k, 1, 0, Stone::Black);
    place(&mut k, 0, 1, Stone::Black);
    place(&mut k, 1, 2, Stone::Black);
    place(&mut k, 2, 0, Stone::White);
    place(&mut k, 3, 1, Stone::White);
    place(&mut k, 2, 2, Stone::White);
    place(&mut k, 1, 1, Stone::White);
    // black captures (1,1) by playing (2,1)
    assert!(handle_click(&mut k, 2, 1));
    assert_eq!(k.grid[1][1], Stone::Empty);
    assert_eq!(k.ko_forbidden, Some((1, 1)));
    assert_eq!(k.turn, Stone::White);
    // white may not retake at once
    let grid_before = k.grid.clone();
    assert!(!handle_click(&mut k, 1, 1));
    assert_eq!(k.grid, grid_before);
    assert_eq!(k.turn, Stone::White);
    assert!(hover_preview(&k, 1, 1).is_none());
    // white plays elsewhere, black answers elsewhere: the ko point is free again
    assert!(handle_click(&mut k, 15, 15));
    assert_eq!(k.ko_forbidden, None);
    assert!(handle_click(&mut k, 16, 16));
    assert!(handle_click(&mut k, 1, 1));
    assert_eq!(k.grid[1][2], Stone::Empty);
    assert_eq!(k.white_captures, 1);
    assert_eq!(k.ko_forbidden, Some((2, 1)));
}

#[test]
fn capturing_two_stones_sets_no_ko_point() {
    let mut b = Board::default();
    // two separate white stones, each with its last liberty at (1,1)
    place(&mut b, 1, 0, Stone::White);
    place(&mut b, 0, 0, Stone::Black);
    place(&mut b, 2, 0, Stone::Black);
    place(&mut b, 0, 1, Stone::White);
    place(&mut b, 0, 2, Stone::Black);
    assert!(handle_click(&mut b, 1, 1));
    assert_eq!(b.grid[0][1], Stone::Empty);
    assert_eq!(b.grid[1][0], Stone::Empty);
    assert_eq!(b.black_captures, 2);
    assert_eq!(b.ko_forbidden, None);
    assert_eq!(count(&b, Stone::White), 0);
}

#[test]
fn capture_is_credited_to_white_when_white_plays() {
    let mut b = Board::default();
    place(&mut b, 18, 18, Stone::Black);
    place(&mut b, 17, 18, Stone::White);
    b.turn = Stone::White;
    assert!(handle_click(&mut b, 18, 17));
    assert_eq!(b.white_captures, 1);
    assert_eq!(b.black_captures, 0);
    assert_eq!(b.turn, Stone::Black);
}

#[test]
fn turns_alternate_and_moves_reset_passes() {
    let mut b = Board::default();
    assert_eq!(handle_keyboard(&mut b, true, false), KeyOutcome::Passed);
    assert_eq!(b.turn, Stone::White);
    assert_eq!(b.consecutive_passes, 1);
    assert!(handle_click(&mut b, 3, 3));
    assert_eq!(b.grid[3][3], Stone::White);
    assert_eq!(b.turn, Stone::Black);
    assert_eq!(b.consecutive_passes, 0);
    assert!(handle_click(&mut b, 4, 4));
    assert_eq!(b.grid[4][4], Stone::Black);
    assert_eq!(b.turn, Stone::White);
}

#[test]
fn click_on_occupied_or_off_board_point_does_nothing() {
    let mut b = Board::default();
    assert!(handle_click(&mut b, 3, 3));
    let grid = b.grid.clone();
    assert!(!handle_click(&mut b, 3, 3));
    assert!(!handle_click(&mut b, -1, 3));
    assert!(!handle_click(&mut b, 3, -1));
    assert!(!handle_click(&mut b, 19, 0));
    assert!(!handle_click(&mut b, 0, 19));
    assert_eq!(b.grid, grid);
    assert_eq!(b.turn, Stone::White);
}

#[test]
fn two_passes_end_the_game() {
    let mut b = Board::default();
    b.ko_forbidden = Some((4, 4));
    assert_eq!(handle_keyboard(&mut b, true, false), KeyOutcome::Passed);
    assert_eq!(b.ko_forbidden, None);
    assert!(!b.game_over);
    assert_eq!(handle_keyboard(&mut b, true, false), KeyOutcome::Passed);
    assert!(b.game_over);
    assert_eq!(b.consecutive_passes, 2);
    assert_eq!(b.turn, Stone::Black);
}

#[test]
fn after_game_over_moves_and_passes_are_ignored() {
    let mut b = Board::default();
    b.game_over = true;
    assert!(!handle_click(&mut b, 3, 3));
    assert_eq!(b.grid[3][3], Stone::Empty);
    assert_eq!(handle_keyboard(&mut b, true, false), KeyOutcome::Ignored);
    assert_eq!(b.consecutive_passes, 0);
    assert!(hover_preview(&b, 3, 3).is_none());
}

#[test]
fn new_game_only_after_game_over() {
    let mut b = Board::default();
    assert!(handle_click(&mut b, 3, 3));
    assert_eq!(handle_keyboard(&mut b, false, true), KeyOutcome::Ignored);
    assert_eq!(b.grid[3][3], Stone::Black);
    b.game_over = true;
    b.black_captures = 7;
    assert_eq!(handle_keyboard(&mut b, false, true), KeyOutcome::NewGame);
    assert_eq!(b.grid[3][3], Stone::Empty);
    assert_eq!(b.black_captures, 0);
    assert!(!b.game_over);
    assert_eq!(b.turn, Stone::Black);
}

#[test]
fn hover_shows_liberty_marks() {
    let mut b = Board::default();
    assert_eq!(hover_preview(&b, 0, 0), Some([false, true, false, true]));
    assert_eq!(hover_preview(&b, 5, 5), Some([true, true, true, true]));
    place(&mut b, 4, 5, Stone::White);
    place(&mut b, 5, 6, Stone::Black);
    assert_eq!(hover_preview(&b, 5, 5), Some([false, true, true, false]));
    assert_eq!(hover_preview(&b, 4, 5), None);
    assert_eq!(hover_preview(&b, -1, 5), None);
    assert_eq!(hover_preview(&b, 5, 19), None);
}

#[test]
fn column_labels_skip_i() {
    assert_eq!(column_label(0), Some('A'));
    assert_eq!(column_label(7), Some('H'));
    assert_eq!(column_label(8), Some('J'));
    assert_eq!(column_label(18), Some('T'));
    assert_eq!(column_label(19), None);
}

#[test]
fn rejected_suicide_keeps_the_ko_ban() {
    let mut k = Board::default();
    place(&mut k, 1, 0, Stone::Black);
    place(&mut k, 0, 1, Stone::Black);
    place(&mut k, 1, 2, Stone::Black);
    place(&mut k, 2, 0, Stone::White);
    place(&mut k, 3, 1, Stone::White);
    place(&mut k, 2, 2, Stone::White);
    place(&mut k, 1, 1, Stone::White);
    // Black takes the white stone at (1,1)
    assert!(handle_click(&mut k, 2, 1));
    assert_eq!(k.ko_forbidden, Some((1, 1)));
    assert_eq!(k.turn, Stone::White);
    // White tries a suicide in the corner: refused, nothing changes
    assert!(!handle_click(&mut k, 0, 0));
    assert_eq!(k.grid[0][0], Stone::Empty);
    assert_eq!(k.ko_forbidden, Some((1, 1)));
    assert_eq!(k.turn, Stone::White);
    // the immediate recapture is still refused
    assert!(!handle_click(&mut k, 1, 1));
    assert_eq!(k.grid[1][1], Stone::Empty);
    assert_eq!(k.grid[1][2], Stone::Black);
    assert_eq!(k.turn, Stone::White);
    assert_eq!(k.white_captures, 0);
}

#[test]
fn remove_group_starts_with_the_start_point() {
    let mut b = Board::default();
    place(&mut b, 7, 7, Stone::Black);
    place(&mut b, 7, 8, Stone::Black);
    place(&mut b, 8, 8, Stone::Black);
    let removed = remove_group(&mut b, 8, 8);
    assert_eq!(removed[0], (8, 8));
    assert_eq!(removed.len(), 3);
}
