use vstd::prelude::*;

use crate::board::{opponent_of, Board, Stone};
use crate::capture::{
    after_captures, captured, is_suicide, lemma_cleared_empty, lemma_cleared_twice, lemma_single_capture,
    lemma_group_in_or_out, lemma_other_group_untouched, lemma_taken_next, lemma_taken_whole, placed,
    taken_upto, takes_in_dir,
};
use crate::grid::{
    at, cleared, group_of, hits, lemma_cleared, lemma_grid_ext, lemma_neighbor, lemma_set_at,
    set_at, square,
};
use crate::group::{has_liberties, neighbor_of, remove_group};

verus! {

/// A set of one element is made of that element.
proof fn lemma_single(k: Set<(usize, usize)>, a: (usize, usize))
    requires
        k.finite(),
        k.len() == 1,
        k.contains(a),
    ensures
        k.choose() == a,
{
    assert(k.remove(a).len() == 0);
    if k.choose() != a {
        assert(k.remove(a).contains(k.choose()));
    }
}

/// There is room in the capture counter of the player to move for the
/// stones that a play at `(x, y)` would capture.
pub open spec fn capture_room(b: Board, x: usize, y: usize) -> bool {
    let k = captured(b.cells(), b.size as int, (x, y), b.turn);
    &&& b.turn == Stone::Black ==> b.black_captures + k.len() <= usize::MAX
    &&& b.turn == Stone::White ==> b.white_captures + k.len() <= usize::MAX
}

/// `b1` is `b0` after the player to move has tried the empty point `(x, y)`:
/// the move stands (`valid`) unless it is suicide; then the captured stones
/// are off the board and credited to the player, and the ko point is the
/// single stone taken, if exactly one was.  A suicide is no move: it leaves
/// the stones and the ko point as they were.  Turn and passes are not part
/// of it.
pub open spec fn move_made(b0: Board, b1: Board, x: usize, y: usize, valid: bool) -> bool {
    let g = b0.cells();
    let n = b0.size as int;
    let c = b0.turn;
    let k = captured(g, n, (x, y), c);
    &&& b1.wf()
    &&& valid == !is_suicide(g, n, (x, y), c)
    &&& b1.cells() == if valid {
        after_captures(g, n, (x, y), c)
    } else {
        g
    }
    &&& b1.size == b0.size
    &&& b1.game_over == b0.game_over
    &&& b1.black_territory == b0.black_territory
    &&& b1.white_territory == b0.white_territory
    &&& b1.komi_tenths == b0.komi_tenths
    &&& b1.overlay_spawned == b0.overlay_spawned
    &&& b1.black_captures == b0.black_captures + if c == Stone::Black {
        k.len()
    } else {
        0
    }
    &&& b1.white_captures == b0.white_captures + if c == Stone::White {
        k.len()
    } else {
        0
    }
    &&& b1.ko_forbidden == if !valid {
        b0.ko_forbidden
    } else if k.len() == 1 {
        Some(k.choose())
    } else {
        None
    }
}

/// Plays a stone of the player to move on the empty point `(x, y)`:
/// captures the opponent groups next to it that are left without a
/// liberty, credits them to the player, and sets the ko point when exactly
/// one stone was taken.  A play that captures nothing and leaves its own
/// group without a liberty is suicide: the board is put back as it was,
/// pending ko point included, and the result is `false`.
pub fn attempt_move(board: &mut Board, x: usize, y: usize) -> (valid: bool)
    requires
        old(board).wf(),
        x < old(board).size,
        y < old(board).size,
        at(old(board).cells(), (x, y)) == Stone::Empty,
        capture_room(*old(board), x, y),
    ensures
        move_made(*old(board), *final(board), x, y, valid),
        final(board).turn == old(board).turn,
        final(board).consecutive_passes == old(board).consecutive_passes,
{
    broadcast use vstd::seq_lib::group_seq_properties;
    broadcast use vstd::set_lib::group_set_properties;

    let ghost b0 = *board;
    let ghost g = board.cells();
    let ghost ni = board.size as int;
    let ghost p = (x, y);
    let n = board.size;
    let color = board.turn;
    let old_ko = board.ko_forbidden;
    let opp = match color {
        Stone::Black => Stone::White,
        _ => Stone::Black,
    };
    board.put(x, y, color);
    let ghost b1 = *board;
    let ghost g1 = board.cells();
    proof {
        assert(g1 == placed(g, p, color));
        lemma_set_at(g, ni, p, color);
        lemma_cleared_empty(g1, ni);
        assert(taken_upto(g1, ni, p, opp, 0) =~= Set::empty());
    }
    let mut all: Vec<(usize, usize)> = Vec::new();
    let mut d: usize = 0;
    while d < 4
        invariant
            board.wf(),
            board.same_but_stones(&b1),
            b1.same_but_stones(&b0),
            n == board.size,
            ni == n as int,
            x < n,
            y < n,
            p == (x, y),
            ni <= usize::MAX,
            square(g1, ni),
            opp == opponent_of(color),
            d <= 4,
            all@.no_duplicates(),
            all@.to_set() == taken_upto(g1, ni, p, opp, d as int),
            board.cells() == cleared(g1, taken_upto(g1, ni, p, opp, d as int)),
        decreases 4 - d,
    {
        let ghost k = taken_upto(g1, ni, p, opp, d as int);
        proof {
            lemma_taken_next(g1, ni, p, opp, d as int);
            lemma_taken_whole(g1, ni, p, opp, d as int);
            lemma_cleared(g1, ni, k);
        }
        match neighbor_of(n, x, y, d) {
            Some((nx, ny)) => {
                let ghost r = (nx, ny);
                proof {
                    lemma_neighbor(ni, p, d as int);
                }
                if board.stone_at(nx, ny) == opp {
                    proof {
                        lemma_other_group_untouched(g1, ni, opp, k, r);
                    }
                    if !has_liberties(board, nx, ny) {
                        let ghost all_before = all@;
                        let ghost grp = group_of(g1, ni, r);
                        let mut taken = remove_group(board, nx, ny);
                        proof {
                            lemma_cleared_twice(g1, ni, k, grp);
                            lemma_group_in_or_out(g1, ni, opp, k, r);
                            assert forall|i: int, j: int|
                                0 <= i < all_before.len() && 0 <= j < taken@.len() implies all_before[i]
                                != taken@[j] by {
                                assert(all_before.to_set().contains(all_before[i]));
                                assert(taken@.to_set().contains(taken@[j]));
                            }
                            vstd::seq_lib::lemma_no_dup_in_concat(all_before, taken@);
                            vstd::seq_lib::seq_to_set_distributes_over_add(all_before, taken@);
                        }
                        all.append(&mut taken);
                    }
                } else {
                    proof {
                        if takes_in_dir(g1, ni, p, opp, d as int) {
                            lemma_group_in_or_out(g1, ni, opp, k, r);
                            assert(k + group_of(g1, ni, r) =~= k);
                        }
                    }
                }
            },
            None => {},
        }
        d = d + 1;
    }
    let ghost k = taken_upto(g1, ni, p, opp, 4);
    proof {
        assert(k == captured(g, ni, p, color));
        all@.unique_seq_to_set();
    }
    let captured_total = all.len();
    if color == Stone::Black {
        board.black_captures = board.black_captures + captured_total;
    } else {
        board.white_captures = board.white_captures + captured_total;
    }
    if captured_total == 1 {
        board.ko_forbidden = Some(all[0]);
        proof {
            assert(all@.to_set().contains(all@[0]));
            lemma_single(k, all@[0]);
        }
    } else {
        board.ko_forbidden = None;
    }
    if captured_total != 0 {
        proof {
            assert(k.contains(all@[0]));
        }
    }
    if captured_total == 0 {
        proof {
            assert(k =~= Set::empty());
            lemma_cleared_empty(g1, ni);
        }
        if !has_liberties(board, x, y) {
            board.put(x, y, Stone::Empty);
            board.ko_forbidden = old_ko;
            proof {
                lemma_set_at(g1, ni, p, Stone::Empty);
                lemma_grid_ext(set_at(g1, p, Stone::Empty), g, ni);
            }
            return false;
        }
    }
    true
}

/// A click on `(x, y)` is a move to try: the game goes on, the point is on
/// the board, empty, and not the ko point.
pub open spec fn click_target(b: Board, x: i32, y: i32) -> bool {
    &&& !b.game_over
    &&& 0 <= x < b.size
    &&& 0 <= y < b.size
    &&& at(b.cells(), (x as usize, y as usize)) == Stone::Empty
    &&& b.ko_forbidden != Some((x as usize, y as usize))
}

/// The stones and every field of `a` and `b` are the same.
pub open spec fn same_board(a: Board, b: Board) -> bool {
    a.same_but_stones(&b) && a.cells() == b.cells()
}

/// A click on the intersection `(x, y)`: when it is a move to try, plays
/// it, and when the move stands, resets the pass count and gives the turn
/// to the other player.  Returns whether a stone was placed.
pub fn handle_click(board: &mut Board, x: i32, y: i32) -> (placed: bool)
    requires
        old(board).wf(),
        click_target(*old(board), x, y) ==> capture_room(*old(board), x as usize, y as usize),
    ensures
        final(board).wf(),
        old(board).consistent() ==> final(board).consistent(),
        !click_target(*old(board), x, y) ==> !placed && same_board(*final(board), *old(board)),
        click_target(*old(board), x, y) ==> {
            &&& move_made(*old(board), *final(board), x as usize, y as usize, placed)
            &&& final(board).turn == if placed {
                opponent_of(old(board).turn)
            } else {
                old(board).turn
            }
            &&& final(board).consecutive_passes == if placed {
                0
            } else {
                old(board).consecutive_passes
            }
        },
{
    if board.game_over {
        return false;
    }
    if x < 0 || y < 0 {
        return false;
    }
    let rx = x as usize;
    let ry = y as usize;
    if rx >= board.size || ry >= board.size {
        return false;
    }
    if board.stone_at(rx, ry) != Stone::Empty {
        return false;
    }
    let ko_here = match board.ko_forbidden {
        Some((kx, ky)) => kx == rx && ky == ry,
        None => false,
    };
    if ko_here {
        return false;
    }
    let ghost b0 = *board;
    let valid = attempt_move(board, rx, ry);
    proof {
        let k = captured(b0.cells(), b0.size as int, (rx, ry), b0.turn);
        if valid && k.len() == 1 {
            lemma_single_capture(b0.cells(), b0.size as int, (rx, ry), b0.turn);
        }
    }
    if valid {
        board.consecutive_passes = 0;
        board.turn = match board.turn {
            Stone::Black => Stone::White,
            _ => Stone::Black,
        };
    }
    valid
}

/// `b1` is `b0` after the player to move passed: the ko point is cleared,
/// one more consecutive pass is counted, the other player moves next, and
/// the second pass in a row ends the game.
pub open spec fn pass_made(b0: Board, b1: Board) -> bool {
    &&& b1.cells() == b0.cells()
    &&& b1.ko_forbidden is None
    &&& b1.consecutive_passes == b0.consecutive_passes + 1
    &&& b1.turn == opponent_of(b0.turn)
    &&& b1.game_over == (b0.consecutive_passes + 1 >= 2)
    &&& b1.size == b0.size
    &&& b1.black_captures == b0.black_captures
    &&& b1.white_captures == b0.white_captures
    &&& b1.black_territory == b0.black_territory
    &&& b1.white_territory == b0.white_territory
    &&& b1.komi_tenths == b0.komi_tenths
    &&& b1.overlay_spawned == b0.overlay_spawned
}

/// What a key press did.
#[derive(Clone, Copy, PartialEq, Eq, Structural, Debug)]
pub enum KeyOutcome {
    Ignored,
    Passed,
    NewGame,
}

/// The pass key (`pass_pressed`) and the new-game key
/// (`new_game_pressed`).  While the game goes on, a pass clears the ko
/// point, counts one more consecutive pass, gives the turn to the other
/// player, and ends the game at the second pass in a row.  Once the game is
/// over, the new-game key starts a fresh game.
pub fn handle_keyboard(board: &mut Board, pass_pressed: bool, new_game_pressed: bool) -> (out: KeyOutcome)
    requires
        old(board).wf(),
        pass_pressed && !old(board).game_over ==> old(board).consecutive_passes < usize::MAX,
    ensures
        final(board).wf(),
        old(board).consistent() ==> final(board).consistent(),
        pass_pressed && !old(board).game_over ==> out == KeyOutcome::Passed && pass_made(
            *old(board),
            *final(board),
        ),
        !(pass_pressed && !old(board).game_over) && new_game_pressed && old(board).game_over ==> out
            == KeyOutcome::NewGame && final(board).is_fresh(),
        !(pass_pressed && !old(board).game_over) && !(new_game_pressed && old(board).game_over)
            ==> out == KeyOutcome::Ignored && same_board(*final(board), *old(board)),
{
    if pass_pressed && !board.game_over {
        board.ko_forbidden = None;
        board.consecutive_passes = board.consecutive_passes + 1;
        board.turn = match board.turn {
            Stone::Black => Stone::White,
            _ => Stone::Black,
        };
        if board.consecutive_passes >= 2 {
            board.game_over = true;
        }
        return KeyOutcome::Passed;
    }
    if new_game_pressed && board.game_over {
        *board = Board::default();
        return KeyOutcome::NewGame;
    }
    KeyOutcome::Ignored
}

/// The neighbour of `(x, y)` in direction `d` is an empty intersection.
fn empty_neighbor(board: &Board, x: usize, y: usize, d: usize) -> (b: bool)
    requires
        board.wf(),
        x < board.size,
        y < board.size,
    ensures
        b == hits(board.cells(), board.size as int, (x, y), d as int, Stone::Empty),
{
    match neighbor_of(board.size, x, y, d) {
        Some((nx, ny)) => {
            proof {
                lemma_neighbor(board.size as int, (x, y), d as int);
            }
            board.stone_at(nx, ny) == Stone::Empty
        },
        None => false,
    }
}

/// What to show while the pointer rests on `(x, y)`: nothing when a click
/// there would not be a move to try; otherwise, for each direction (left,
/// right, down, up), whether the neighbour there is an empty point.
pub fn hover_preview(board: &Board, x: i32, y: i32) -> (preview: Option<[bool; 4]>)
    requires
        board.wf(),
    ensures
        preview is Some == click_target(*board, x, y),
        preview matches Some(marks) ==> forall|d: int|
            0 <= d < 4 ==> #[trigger] marks@[d] == hits(
                board.cells(),
                board.size as int,
                (x as usize, y as usize),
                d,
                Stone::Empty,
            ),
{
    if board.game_over || x < 0 || y < 0 {
        return None;
    }
    let rx = x as usize;
    let ry = y as usize;
    if rx >= board.size || ry >= board.size {
        return None;
    }
    if board.stone_at(rx, ry) != Stone::Empty {
        return None;
    }
    let ko_here = match board.ko_forbidden {
        Some((kx, ky)) => kx == rx && ky == ry,
        None => false,
    };
    if ko_here {
        return None;
    }
    let left = empty_neighbor(board, rx, ry, 0);
    let right = empty_neighbor(board, rx, ry, 1);
    let down = empty_neighbor(board, rx, ry, 2);
    let up = empty_neighbor(board, rx, ry, 3);
    let marks = [left, right, down, up];
    proof {
        assert(marks@[0] == left && marks@[1] == right && marks@[2] == down && marks@[3] == up);
    }
    Some(marks)
}

} // verus!
