//! Properties of the rules that hold of every position and every move.
use vstd::prelude::*;

use crate::board::{opponent_of, Board, Stone};
use crate::capture::{
    after_captures, captured, is_suicide, lemma_cleared_empty, lemma_other_group_untouched,
    lemma_taken_whole, placed, takes_in_dir,
};
use crate::grid::{
    adjacent, at, connected, group_of, has_liberty, hits, in_bounds, in_group, lemma_cleared,
    lemma_connected_extend, lemma_connected_refl,
    lemma_group_of_member, lemma_neighbor, lemma_on_board_finite, lemma_set_at, neighbor, square,
    touches_set,
};
use crate::rules::{capture_room, click_target, move_made, pass_made};
use crate::scoring::{owned_by, territory};

verus! {

/// Every point of the board can be played while the game goes on: a click
/// on any empty point that is not the ko point is a move to try, whatever
/// its row or column, and wherever the ko point lies.
pub proof fn lemma_free_point_is_move_to_try(b: Board, x: i32, y: i32)
    requires
        !b.game_over,
        0 <= x < b.size,
        0 <= y < b.size,
        at(b.cells(), (x as usize, y as usize)) == Stone::Empty,
        b.ko_forbidden != Some((x as usize, y as usize)),
    ensures
        click_target(b, x, y),
{
}

/// A click is tried only while the game goes on, on the board, on an empty
/// point, and never on the ko point.
pub proof fn lemma_move_to_try_is_free_point(b: Board, x: i32, y: i32)
    requires
        click_target(b, x, y),
    ensures
        !b.game_over,
        0 <= x < b.size,
        0 <= y < b.size,
        at(b.cells(), (x as usize, y as usize)) == Stone::Empty,
        b.ko_forbidden != Some((x as usize, y as usize)),
{
}

/// A move on an empty point is refused exactly when it captures nothing and
/// the group the new stone forms (joined with its friendly neighbours) has
/// no liberty; in particular a stone whose group keeps a liberty anywhere
/// always stands.
pub proof fn lemma_refused_only_when_group_dead(b0: Board, b1: Board, x: usize, y: usize, valid: bool)
    requires
        move_made(b0, b1, x, y, valid),
    ensures
        valid == (captured(b0.cells(), b0.size as int, (x, y), b0.turn) != Set::<(usize, usize)>::empty()
            || has_liberty(placed(b0.cells(), (x, y), b0.turn), b0.size as int, (x, y))),
        has_liberty(placed(b0.cells(), (x, y), b0.turn), b0.size as int, (x, y)) ==> valid,
        !valid ==> b1.cells() == b0.cells() && b1.ko_forbidden == b0.ko_forbidden
            && b1.black_captures == b0.black_captures && b1.white_captures == b0.white_captures,
{
}

/// A group has a liberty as soon as any of its stones, however far along
/// the group from `p`, has an empty neighbour; and a group without a
/// liberty has no empty point next to any of its stones.
pub proof fn lemma_liberty_anywhere_in_group(
    g: Seq<Seq<Stone>>,
    n: int,
    p: (usize, usize),
    q: (usize, usize),
    r: (usize, usize),
)
    requires
        in_bounds(n, p),
        connected(g, n, at(g, p), p, q),
        in_bounds(n, r),
        adjacent(q, r),
        at(g, r) == Stone::Empty,
    ensures
        has_liberty(g, n, p),
{
    assert(group_of(g, n, p).contains(q));
}

/// A point whose own neighbour is empty gives the new stone a liberty: a
/// move next to an empty point (a liberty dot of the hover preview) always
/// stands.
pub proof fn lemma_empty_neighbour_move_stands(b0: Board, b1: Board, x: usize, y: usize, valid: bool, d: int)
    requires
        b0.wf(),
        x < b0.size,
        y < b0.size,
        0 <= d < 4,
        hits(b0.cells(), b0.size as int, (x, y), d, Stone::Empty),
        move_made(b0, b1, x, y, valid),
    ensures
        valid,
{
    let g = b0.cells();
    let n = b0.size as int;
    let p = (x, y);
    let c = b0.turn;
    lemma_neighbor(n, p, d);
    let r = neighbor(n, p, d)->0;
    lemma_set_at(g, n, p, c);
    assert(r != p);
    lemma_connected_refl(placed(g, p, c), n, p);
    lemma_liberty_anywhere_in_group(placed(g, p, c), n, p, p, r);
}

/// A move that stands leaves a ko point exactly when it captured a single
/// stone, and the ko point is that stone.
pub proof fn lemma_ko_iff_single_capture(b0: Board, b1: Board, x: usize, y: usize, q: (usize, usize))
    requires
        b0.wf(),
        x < b0.size,
        y < b0.size,
        move_made(b0, b1, x, y, true),
    ensures
        b1.ko_forbidden == Some(q) <==> captured(b0.cells(), b0.size as int, (x, y), b0.turn)
            == Set::<(usize, usize)>::empty().insert(q),
        b1.ko_forbidden is Some <==> captured(b0.cells(), b0.size as int, (x, y), b0.turn).len() == 1,
{
    let g = b0.cells();
    let n = b0.size as int;
    let k = captured(g, n, (x, y), b0.turn);
    lemma_move_facts(g, n, (x, y), b0.turn);
    if k.len() == 1 {
        assert(k.contains(k.choose())) by {
            if !k.contains(k.choose()) {
                assert forall|a: (usize, usize)| !k.contains(a) by {
                    if k.contains(a) {
                        assert(k.contains(k.choose()));
                    }
                }
                assert(k =~= Set::<(usize, usize)>::empty());
            }
        }
        assert forall|a: (usize, usize)| k.contains(a) implies a == k.choose() by {
            if a != k.choose() {
                assert(k.remove(k.choose()).contains(a));
                assert(k.remove(k.choose()).len() == 0);
            }
        }
        assert(k =~= Set::<(usize, usize)>::empty().insert(k.choose()));
    }
    if k == Set::<(usize, usize)>::empty().insert(q) {
        assert(k.len() == 1);
        assert(k.contains(k.choose())) by {
            assert(k.contains(q));
        }
    }
}

/// A point is territory of `s` exactly when it is an empty point of the
/// board whose empty region borders a stone of `s` and no stone of the
/// other colour.
pub proof fn lemma_territory_borders(g: Seq<Seq<Stone>>, n: int, s: Stone, p: (usize, usize))
    requires
        s == Stone::Black || s == Stone::White,
    ensures
        territory(g, n, s).contains(p) <==> {
            &&& in_bounds(n, p)
            &&& at(g, p) == Stone::Empty
            &&& exists|a: (usize, usize), b: (usize, usize)|
                #![trigger group_of(g, n, p).contains(a), adjacent(a, b)]
                group_of(g, n, p).contains(a) && in_bounds(n, b) && adjacent(a, b) && at(g, b) == s
            &&& !exists|a: (usize, usize), b: (usize, usize)|
                #![trigger group_of(g, n, p).contains(a), adjacent(a, b)]
                group_of(g, n, p).contains(a) && in_bounds(n, b) && adjacent(a, b) && at(g, b)
                    == opponent_of(s)
        },
{
}

/// A move captures at most as many stones as the board has points.
pub proof fn lemma_captured_bound(g: Seq<Seq<Stone>>, n: int, p: (usize, usize), c: Stone)
    requires
        0 <= n <= usize::MAX,
    ensures
        captured(g, n, p, c).finite(),
        captured(g, n, p, c).len() <= n * n,
{
    let o = opponent_of(c);
    lemma_taken_whole(placed(g, p, c), n, p, o, 4);
    crate::grid::lemma_on_board_len(n, captured(g, n, p, c));
}

/// A capture counter of the player to move that is at most
/// `usize::MAX - size * size` leaves room for any capture.
pub proof fn lemma_capture_room(b: Board, x: usize, y: usize)
    requires
        b.wf(),
        b.turn == Stone::Black ==> b.black_captures <= usize::MAX - b.size * b.size,
        b.turn == Stone::White ==> b.white_captures <= usize::MAX - b.size * b.size,
    ensures
        capture_room(b, x, y),
{
    lemma_captured_bound(b.cells(), b.size as int, (x, y), b.turn);
}

/// Facts shared by the move laws: where the captured stones lie.
proof fn lemma_move_facts(g: Seq<Seq<Stone>>, n: int, p: (usize, usize), c: Stone)
    requires
        square(g, n),
        n <= usize::MAX,
        in_bounds(n, p),
        c == Stone::Black || c == Stone::White,
    ensures
        captured(g, n, p, c).finite(),
        !captured(g, n, p, c).contains(p),
        at(after_captures(g, n, p, c), p) == c,
        forall|q: (usize, usize)| #[trigger] captured(g, n, p, c).contains(q) ==> in_bounds(n, q)
            && at(placed(g, p, c), q) == opponent_of(c),
        forall|q: (usize, usize)|
            in_bounds(n, q) ==> #[trigger] at(after_captures(g, n, p, c), q) == if captured(
                g,
                n,
                p,
                c,
            ).contains(q) {
                Stone::Empty
            } else {
                at(placed(g, p, c), q)
            },
{
    let g1 = placed(g, p, c);
    let o = opponent_of(c);
    let k = captured(g, n, p, c);
    lemma_set_at(g, n, p, c);
    lemma_taken_whole(g1, n, p, o, 4);
    lemma_cleared(g1, n, k);
    lemma_on_board_finite(n, k);
}

/// Every stone on the board belongs to a group with a liberty.
pub open spec fn legal_position(g: Seq<Seq<Stone>>, n: int) -> bool {
    forall|q: (usize, usize)| in_bounds(n, q) && at(g, q) != Stone::Empty ==> #[trigger] has_liberty(g, n, q)
}

/// A move that stands keeps a legal position legal: no group is left on
/// the board without a liberty.
pub proof fn lemma_move_keeps_position_legal(g: Seq<Seq<Stone>>, n: int, p: (usize, usize), c: Stone)
    requires
        square(g, n),
        n <= usize::MAX,
        legal_position(g, n),
        in_bounds(n, p),
        at(g, p) == Stone::Empty,
        c == Stone::Black || c == Stone::White,
        !is_suicide(g, n, p, c),
    ensures
        legal_position(after_captures(g, n, p, c), n),
{
    let g1 = placed(g, p, c);
    let o = opponent_of(c);
    let k = captured(g, n, p, c);
    let h = after_captures(g, n, p, c);
    lemma_move_facts(g, n, p, c);
    lemma_set_at(g, n, p, c);
    lemma_taken_whole(g1, n, p, o, 4);
    lemma_played_stone_has_liberty(g, n, p, c);
    assert forall|q: (usize, usize)| in_bounds(n, q) && at(h, q) != Stone::Empty implies #[trigger] has_liberty(
        h,
        n,
        q,
    ) by {
        assert(!k.contains(q));
        if at(h, q) == c {
            lemma_stone_of_mover_keeps_liberty(g, n, p, c, q);
        } else {
            lemma_stone_of_opponent_keeps_liberty(g, n, p, c, q);
        }
    }
}

proof fn lemma_stone_of_mover_keeps_liberty(g: Seq<Seq<Stone>>, n: int, p: (usize, usize), c: Stone, q: (usize, usize))
    requires
        square(g, n),
        n <= usize::MAX,
        legal_position(g, n),
        in_bounds(n, p),
        in_bounds(n, q),
        at(g, p) == Stone::Empty,
        c == Stone::Black || c == Stone::White,
        !is_suicide(g, n, p, c),
        at(after_captures(g, n, p, c), q) == c,
    ensures
        has_liberty(after_captures(g, n, p, c), n, q),
{
    let g1 = placed(g, p, c);
    let k = captured(g, n, p, c);
    let h = after_captures(g, n, p, c);
    lemma_move_facts(g, n, p, c);
    lemma_set_at(g, n, p, c);
    lemma_played_stone_has_liberty(g, n, p, c);
    if connected(h, n, c, p, q) {
        lemma_group_of_member(h, n, p, q);
    } else {
        assert(q != p) by {
            if q == p {
                lemma_connected_refl(h, n, p);
            }
        }
        assert(at(g, q) == c);
        assert(has_liberty(g, n, q));
        let grp = group_of(g, n, q);
        let (a, b) = choose|a: (usize, usize), b: (usize, usize)|
            #![trigger grp.contains(a), adjacent(a, b)]
            grp.contains(a) && in_bounds(n, b) && adjacent(a, b) && at(g, b) == Stone::Empty;
        assert forall|x: (usize, usize)| in_bounds(n, x) && at(g, x) == c implies #[trigger] at(h, x) == c by {
            assert(x != p);
        }
        crate::grid::lemma_connected_lift(g, h, n, c, q, a);
        crate::grid::lemma_chain_ends(g, n, c, q, a);
        if b == p {
            lemma_connected_extend(h, n, c, q, a, p);
            crate::grid::lemma_connected_symmetric(h, n, c, q, p);
        }
        assert(at(h, b) == Stone::Empty);
        assert(group_of(h, n, q).contains(a));
        assert(touches_set(h, n, group_of(h, n, q), Stone::Empty));
    }
}

proof fn lemma_stone_of_opponent_keeps_liberty(
    g: Seq<Seq<Stone>>,
    n: int,
    p: (usize, usize),
    c: Stone,
    q: (usize, usize),
)
    requires
        square(g, n),
        n <= usize::MAX,
        legal_position(g, n),
        in_bounds(n, p),
        in_bounds(n, q),
        at(g, p) == Stone::Empty,
        c == Stone::Black || c == Stone::White,
        at(after_captures(g, n, p, c), q) == opponent_of(c),
    ensures
        has_liberty(after_captures(g, n, p, c), n, q),
{
    let g1 = placed(g, p, c);
    let o = opponent_of(c);
    let k = captured(g, n, p, c);
    let h = after_captures(g, n, p, c);
    lemma_move_facts(g, n, p, c);
    lemma_set_at(g, n, p, c);
    lemma_taken_whole(g1, n, p, o, 4);
    assert(!k.contains(q));
    assert(q != p);
    assert(at(g, q) == o);
    assert(has_liberty(g, n, q));
    let grp = group_of(g, n, q);
    let (a, b) = choose|a: (usize, usize), b: (usize, usize)|
        #![trigger grp.contains(a), adjacent(a, b)]
        grp.contains(a) && in_bounds(n, b) && adjacent(a, b) && at(g, b) == Stone::Empty;
    assert forall|x: (usize, usize)| in_bounds(n, x) && at(g, x) == o implies #[trigger] at(g1, x) == o by {
        assert(x != p);
    }
    crate::grid::lemma_connected_lift(g, g1, n, o, q, a);
    crate::grid::lemma_chain_ends(g, n, o, q, a);
    assert(group_of(g1, n, q).contains(a));
    if b == p {
        // a is a neighbour of the new stone whose group was not taken
        crate::grid::lemma_adjacent_symmetric(a, p);
        crate::grid::lemma_adjacent_direction(n, p, a);
        let d = crate::grid::direction(p, a);
        crate::grid::lemma_connected_symmetric(g1, n, o, q, a);
        lemma_group_of_member(g1, n, a, q);
        if !has_liberty(g1, n, a) {
            assert(takes_in_dir(g1, n, p, o, d));
            assert(k.contains(q));
        }
        lemma_group_of_member(g1, n, q, a);
    } else {
        assert(at(g1, b) == Stone::Empty);
        assert(touches_set(g1, n, group_of(g1, n, q), Stone::Empty));
    }
    lemma_other_group_untouched(g1, n, o, k, q);
}

/// Positions reached by clicks from a legal position stay legal, whether
/// the move stands or is refused as suicide.
pub proof fn lemma_click_keeps_board_legal(b0: Board, b1: Board, x: usize, y: usize, placed: bool)
    requires
        b0.wf(),
        x < b0.size,
        y < b0.size,
        at(b0.cells(), (x, y)) == Stone::Empty,
        legal_position(b0.cells(), b0.size as int),
        move_made(b0, b1, x, y, placed),
    ensures
        legal_position(b1.cells(), b1.size as int),
{
    if placed {
        lemma_move_keeps_position_legal(b0.cells(), b0.size as int, (x, y), b0.turn);
    }
}

/// A new game starts from a legal position.
pub proof fn lemma_fresh_board_legal(b: Board)
    requires
        b.is_fresh(),
    ensures
        legal_position(b.cells(), b.size as int),
{
}

/// The points of the board that hold `s`.
pub open spec fn stones_of(g: Seq<Seq<Stone>>, n: int, s: Stone) -> Set<(usize, usize)> {
    Set::new(|q: (usize, usize)| in_bounds(n, q) && at(g, q) == s)
}

/// A move that stands adds one stone of the mover and takes off exactly the
/// captured opponent stones.
pub proof fn lemma_move_stone_counts(g: Seq<Seq<Stone>>, n: int, p: (usize, usize), c: Stone)
    requires
        square(g, n),
        0 <= n <= usize::MAX,
        in_bounds(n, p),
        at(g, p) == Stone::Empty,
        c == Stone::Black || c == Stone::White,
    ensures
        stones_of(after_captures(g, n, p, c), n, c).len() == stones_of(g, n, c).len() + 1,
        stones_of(after_captures(g, n, p, c), n, opponent_of(c)).len() + captured(g, n, p, c).len()
            == stones_of(g, n, opponent_of(c)).len(),
{
    let o = opponent_of(c);
    let k = captured(g, n, p, c);
    let h = after_captures(g, n, p, c);
    lemma_move_facts(g, n, p, c);
    lemma_set_at(g, n, p, c);
    let c0 = stones_of(g, n, c);
    let c1 = stones_of(h, n, c);
    let o0 = stones_of(g, n, o);
    let o1 = stones_of(h, n, o);
    lemma_on_board_finite(n, c0);
    lemma_on_board_finite(n, o0);
    assert(c1 =~= c0.insert(p));
    assert(!c0.contains(p));
    assert(o1 =~= o0.difference(k));
    assert(o0.intersect(k) =~= k);
    vstd::set_lib::lemma_set_difference_len(o0, k);
}

/// Stones leave the board only by capture: once a move stands, the
/// mover's stones plus the opponent's captures grow by one, and the
/// opponent's stones plus the mover's captures stay the same.
pub proof fn lemma_stone_balance(b0: Board, b1: Board, x: usize, y: usize)
    requires
        b0.wf(),
        x < b0.size,
        y < b0.size,
        at(b0.cells(), (x, y)) == Stone::Empty,
        move_made(b0, b1, x, y, true),
    ensures
        b0.turn == Stone::Black ==> {
            &&& stones_of(b1.cells(), b1.size as int, Stone::Black).len() + b1.white_captures == stones_of(
                b0.cells(),
                b0.size as int,
                Stone::Black,
            ).len() + b0.white_captures + 1
            &&& stones_of(b1.cells(), b1.size as int, Stone::White).len() + b1.black_captures == stones_of(
                b0.cells(),
                b0.size as int,
                Stone::White,
            ).len() + b0.black_captures
        },
        b0.turn == Stone::White ==> {
            &&& stones_of(b1.cells(), b1.size as int, Stone::White).len() + b1.black_captures == stones_of(
                b0.cells(),
                b0.size as int,
                Stone::White,
            ).len() + b0.black_captures + 1
            &&& stones_of(b1.cells(), b1.size as int, Stone::Black).len() + b1.white_captures == stones_of(
                b0.cells(),
                b0.size as int,
                Stone::Black,
            ).len() + b0.white_captures
        },
{
    lemma_move_stone_counts(b0.cells(), b0.size as int, (x, y), b0.turn);
}

/// The colour of the other player; empty points stay empty.
pub open spec fn swapped(s: Stone) -> Stone {
    match s {
        Stone::Black => Stone::White,
        Stone::White => Stone::Black,
        Stone::Empty => Stone::Empty,
    }
}

/// The board with every Black stone made White and every White stone Black.
pub open spec fn swap_colours(g: Seq<Seq<Stone>>) -> Seq<Seq<Stone>> {
    Seq::new(g.len(), |y: int| Seq::new(g[y].len(), |x: int| swapped(g[y][x])))
}

/// Territory does not depend on which colour is called which: swapping the
/// colours of all stones swaps the two territories.
pub proof fn lemma_territory_colour_swap(g: Seq<Seq<Stone>>, n: int)
    requires
        square(g, n),
        n <= usize::MAX,
    ensures
        territory(swap_colours(g), n, Stone::Black) == territory(g, n, Stone::White),
        territory(swap_colours(g), n, Stone::White) == territory(g, n, Stone::Black),
{
    let h = swap_colours(g);
    assert forall|q: (usize, usize)| in_bounds(n, q) implies #[trigger] at(h, q) == swapped(at(g, q)) by {
        assert(g[q.1 as int].len() == n);
    }
    assert forall|p: (usize, usize)| in_bounds(n, p) && at(g, p) == Stone::Empty implies group_of(h, n, p)
        == group_of(g, n, p) by {
        assert forall|q: (usize, usize)| #[trigger] group_of(h, n, p).contains(q) == group_of(g, n, p).contains(q) by {
            if connected(g, n, Stone::Empty, p, q) {
                crate::grid::lemma_connected_lift(g, h, n, Stone::Empty, p, q);
            }
            if connected(h, n, Stone::Empty, p, q) {
                crate::grid::lemma_connected_lift(h, g, n, Stone::Empty, p, q);
            }
        }
        assert(group_of(h, n, p) =~= group_of(g, n, p));
    }
    assert forall|k: Set<(usize, usize)>, s: Stone| #[trigger] touches_set(h, n, k, s) == touches_set(g, n, k, swapped(s)) by {
        if touches_set(h, n, k, s) {
            let (a, b) = choose|a: (usize, usize), b: (usize, usize)|
                #![trigger k.contains(a), adjacent(a, b)]
                k.contains(a) && in_bounds(n, b) && adjacent(a, b) && at(h, b) == s;
            assert(at(g, b) == swapped(s));
        }
        if touches_set(g, n, k, swapped(s)) {
            let (a, b) = choose|a: (usize, usize), b: (usize, usize)|
                #![trigger k.contains(a), adjacent(a, b)]
                k.contains(a) && in_bounds(n, b) && adjacent(a, b) && at(g, b) == swapped(s);
            assert(at(h, b) == s);
        }
    }
    assert forall|p: (usize, usize)| #[trigger] territory(h, n, Stone::Black).contains(p) == territory(g, n, Stone::White).contains(p) by {
        if in_bounds(n, p) && at(g, p) == Stone::Empty {
            assert(touches_set(h, n, group_of(g, n, p), Stone::Black) == touches_set(g, n, group_of(g, n, p), Stone::White));
            assert(touches_set(h, n, group_of(g, n, p), Stone::White) == touches_set(g, n, group_of(g, n, p), Stone::Black));
        }
    }
    assert forall|p: (usize, usize)| #[trigger] territory(h, n, Stone::White).contains(p) == territory(g, n, Stone::Black).contains(p) by {
        if in_bounds(n, p) && at(g, p) == Stone::Empty {
            assert(touches_set(h, n, group_of(g, n, p), Stone::Black) == touches_set(g, n, group_of(g, n, p), Stone::White));
            assert(touches_set(h, n, group_of(g, n, p), Stone::White) == touches_set(g, n, group_of(g, n, p), Stone::Black));
        }
    }
    assert(territory(h, n, Stone::Black) =~= territory(g, n, Stone::White));
    assert(territory(h, n, Stone::White) =~= territory(g, n, Stone::Black));
}

/// Suicide rule: once a move stands, the stone just played has a liberty.
pub proof fn lemma_played_stone_has_liberty(g: Seq<Seq<Stone>>, n: int, p: (usize, usize), c: Stone)
    requires
        square(g, n),
        n <= usize::MAX,
        in_bounds(n, p),
        at(g, p) == Stone::Empty,
        c == Stone::Black || c == Stone::White,
        !is_suicide(g, n, p, c),
    ensures
        at(after_captures(g, n, p, c), p) == c,
        has_liberty(after_captures(g, n, p, c), n, p),
{
    let g1 = placed(g, p, c);
    let o = opponent_of(c);
    let k = captured(g, n, p, c);
    let h = after_captures(g, n, p, c);
    lemma_move_facts(g, n, p, c);
    lemma_set_at(g, n, p, c);
    if k == Set::<(usize, usize)>::empty() {
        lemma_cleared_empty(g1, n);
    } else {
        assert(exists|q: (usize, usize)| k.contains(q)) by {
            if !exists|q: (usize, usize)| k.contains(q) {
                assert(k =~= Set::<(usize, usize)>::empty());
            }
        }
        let q = choose|q: (usize, usize)| k.contains(q);
        let d = choose|d: int|
            0 <= d < 4 && #[trigger] takes_in_dir(g1, n, p, o, d) && in_group(g1, n, neighbor(n, p, d)->0, q);
        lemma_neighbor(n, p, d);
        let r = neighbor(n, p, d)->0;
        lemma_connected_refl(g1, n, r);
        assert(k.contains(r));
        lemma_connected_refl(h, n, p);
        assert(group_of(h, n, p).contains(p) && adjacent(p, r));
        assert(touches_set(h, n, group_of(h, n, p), Stone::Empty));
    }
}

/// Captures are complete: once a move stands, every opponent group next to
/// the stone just played has a liberty.
pub proof fn lemma_no_adjacent_group_left_dead(
    g: Seq<Seq<Stone>>,
    n: int,
    p: (usize, usize),
    c: Stone,
    d: int,
)
    requires
        square(g, n),
        n <= usize::MAX,
        in_bounds(n, p),
        c == Stone::Black || c == Stone::White,
        0 <= d < 4,
    ensures
        neighbor(n, p, d) matches Some(r) ==> (at(after_captures(g, n, p, c), r) == opponent_of(c)
            ==> has_liberty(after_captures(g, n, p, c), n, r)),
{
    let g1 = placed(g, p, c);
    let o = opponent_of(c);
    let k = captured(g, n, p, c);
    lemma_move_facts(g, n, p, c);
    lemma_set_at(g, n, p, c);
    if let Some(r) = neighbor(n, p, d) {
        lemma_neighbor(n, p, d);
        if at(after_captures(g, n, p, c), r) == o {
            assert(!k.contains(r));
            if takes_in_dir(g1, n, p, o, d) {
                lemma_connected_refl(g1, n, r);
                assert(k.contains(r));
            }
            lemma_taken_whole(g1, n, p, o, 4);
            lemma_other_group_untouched(g1, n, o, k, r);
        }
    }
}

/// A move only adds the mover's stone and takes off opponent stones: every
/// other intersection keeps its stone or loses an opponent stone.
pub proof fn lemma_move_only_removes_opponents(
    g: Seq<Seq<Stone>>,
    n: int,
    p: (usize, usize),
    c: Stone,
    q: (usize, usize),
)
    requires
        square(g, n),
        n <= usize::MAX,
        in_bounds(n, p),
        in_bounds(n, q),
        q != p,
        c == Stone::Black || c == Stone::White,
    ensures
        at(after_captures(g, n, p, c), q) == at(g, q) || (at(g, q) == opponent_of(c) && at(
            after_captures(g, n, p, c),
            q,
        ) == Stone::Empty),
        captured(g, n, p, c).contains(q) ==> at(g, q) == opponent_of(c),
{
    lemma_move_facts(g, n, p, c);
    lemma_set_at(g, n, p, c);
}

/// Ko rule: the ko point left by a move is the single stone it took, right
/// next to the stone just played, now empty, and the opponent's click there
/// is refused.
pub proof fn lemma_ko_point(b0: Board, b1: Board, x: usize, y: usize, q: (usize, usize))
    requires
        b0.wf(),
        x < b0.size,
        y < b0.size,
        move_made(b0, b1, x, y, true),
        b1.ko_forbidden == Some(q),
        q.0 <= i32::MAX,
        q.1 <= i32::MAX,
    ensures
        adjacent((x, y), q),
        at(b1.cells(), q) == Stone::Empty,
        !click_target(b1, q.0 as i32, q.1 as i32),
{
    let g = b0.cells();
    let n = b0.size as int;
    let c = b0.turn;
    let p = (x, y);
    let g1 = placed(g, p, c);
    let o = opponent_of(c);
    let k = captured(g, n, p, c);
    lemma_move_facts(g, n, p, c);
    lemma_set_at(g, n, p, c);
    assert(k.len() == 1);
    assert(k.contains(q)) by {
        if k == Set::<(usize, usize)>::empty() {
            assert(k.len() == 0);
        }
    }
    let d = choose|d: int|
        0 <= d < 4 && #[trigger] takes_in_dir(g1, n, p, o, d) && in_group(g1, n, neighbor(n, p, d)->0, q);
    lemma_neighbor(n, p, d);
    let r = neighbor(n, p, d)->0;
    lemma_connected_refl(g1, n, r);
    assert(k.contains(r));
    if r != q {
        assert(k.remove(q).contains(r));
        assert(k.remove(q).len() == 0);
    }
}

/// Two passes in a row end the game.
pub proof fn lemma_two_passes_end_game(b0: Board, b1: Board, b2: Board)
    requires
        pass_made(b0, b1),
        pass_made(b1, b2),
    ensures
        b2.game_over,
{
}

/// No point is territory of both colours, and territory is made of empty
/// points.
pub proof fn lemma_territories_disjoint(g: Seq<Seq<Stone>>, n: int)
    ensures
        territory(g, n, Stone::Black).disjoint(territory(g, n, Stone::White)),
        forall|q: (usize, usize)| #[trigger] territory(g, n, Stone::Black).contains(q) ==> at(g, q) == Stone::Empty,
        forall|q: (usize, usize)| #[trigger] territory(g, n, Stone::White).contains(q) ==> at(g, q) == Stone::Empty,
{
}

/// Territory counts whole regions: the points of one empty region belong
/// to the same player, or to no one.
pub proof fn lemma_region_owned_alike(
    g: Seq<Seq<Stone>>,
    n: int,
    p: (usize, usize),
    q: (usize, usize),
    s: Stone,
)
    requires
        in_group(g, n, p, q),
    ensures
        owned_by(g, n, p, s) == owned_by(g, n, q, s),
{
    lemma_group_of_member(g, n, p, q);
}

/// All stones of one group share its liberties: the group has a liberty
/// from any of its stones or from none.
pub proof fn lemma_liberty_shared_by_group(
    g: Seq<Seq<Stone>>,
    n: int,
    p: (usize, usize),
    q: (usize, usize),
)
    requires
        in_group(g, n, p, q),
    ensures
        has_liberty(g, n, q) == has_liberty(g, n, p),
{
    lemma_group_of_member(g, n, p, q);
}

/// With a half-point komi a game cannot end in a draw: Black's points times
/// ten never equal White's total in tenths.
pub proof fn lemma_no_draw_with_half_point_komi(
    black_territory: int,
    white_territory: int,
    black_captures: int,
    white_captures: int,
    komi_tenths: int,
)
    requires
        komi_tenths % 10 == 5,
    ensures
        (black_territory + black_captures) * 10 != (white_territory + white_captures) * 10 + komi_tenths,
{
}

} // verus!
