use vstd::prelude::*;

use crate::board::{opponent_of, Stone};
use crate::grid::{
    adjacent, at, cleared, connected, group_of, has_liberty, in_bounds, in_group, lemma_chain_ends,
    lemma_cleared, lemma_closed_holds_connected, lemma_connected_extend, lemma_connected_refl,
    lemma_connected_symmetric, lemma_connected_transitive, lemma_grid_ext, neighbor, set_at, square,
    touches, touches_set, closed_under,
};

verus! {

/// Playing at `p` takes the neighbouring group in direction `d`: it holds
/// stones `o` and has no liberty once the new stone stands.
pub open spec fn takes_in_dir(g1: Seq<Seq<Stone>>, n: int, p: (usize, usize), o: Stone, d: int) -> bool {
    match neighbor(n, p, d) {
        Some(r) => at(g1, r) == o && !has_liberty(g1, n, r),
        None => false,
    }
}

/// The stones taken by the groups in the first `k` directions.
pub open spec fn taken_upto(g1: Seq<Seq<Stone>>, n: int, p: (usize, usize), o: Stone, k: int) -> Set<
    (usize, usize),
> {
    Set::new(
        |q: (usize, usize)|
            exists|d: int|
                0 <= d < k && #[trigger] takes_in_dir(g1, n, p, o, d) && in_group(
                    g1,
                    n,
                    neighbor(n, p, d)->0,
                    q,
                ),
    )
}

/// The board once `c` has been placed at `p`, before any capture.
pub open spec fn placed(g: Seq<Seq<Stone>>, p: (usize, usize), c: Stone) -> Seq<Seq<Stone>> {
    set_at(g, p, c)
}

/// The stones that a stone of colour `c` played at `p` captures: every
/// opponent group next to `p` that is left without a liberty.
pub open spec fn captured(g: Seq<Seq<Stone>>, n: int, p: (usize, usize), c: Stone) -> Set<(usize, usize)> {
    taken_upto(placed(g, p, c), n, p, opponent_of(c), 4)
}

/// The board after `c` has been played at `p` and the captured stones removed.
pub open spec fn after_captures(g: Seq<Seq<Stone>>, n: int, p: (usize, usize), c: Stone) -> Seq<Seq<Stone>> {
    cleared(placed(g, p, c), captured(g, n, p, c))
}

/// Playing `c` at `p` is suicide: nothing is captured and the new stone's
/// group has no liberty.
pub open spec fn is_suicide(g: Seq<Seq<Stone>>, n: int, p: (usize, usize), c: Stone) -> bool {
    captured(g, n, p, c) == Set::<(usize, usize)>::empty() && !has_liberty(placed(g, p, c), n, p)
}

/// `k` is made of whole groups of stones `o`.
pub open spec fn whole_groups(g: Seq<Seq<Stone>>, n: int, o: Stone, k: Set<(usize, usize)>) -> bool {
    &&& forall|q: (usize, usize)| #[trigger] k.contains(q) ==> in_bounds(n, q) && at(g, q) == o
    &&& forall|q: (usize, usize), r: (usize, usize)|
        #![trigger k.contains(q), connected(g, n, o, q, r)]
        k.contains(q) && connected(g, n, o, q, r) ==> k.contains(r)
}

/// The stones taken so far are whole groups of stones `o`.
pub proof fn lemma_taken_whole(g1: Seq<Seq<Stone>>, n: int, p: (usize, usize), o: Stone, k: int)
    ensures
        whole_groups(g1, n, o, taken_upto(g1, n, p, o, k)),
{
    let t = taken_upto(g1, n, p, o, k);
    assert forall|q: (usize, usize)| #[trigger] t.contains(q) implies in_bounds(n, q) && at(g1, q) == o by {
        let d = choose|d: int|
            0 <= d < k && #[trigger] takes_in_dir(g1, n, p, o, d) && in_group(g1, n, neighbor(n, p, d)->0, q);
        let r = neighbor(n, p, d)->0;
        lemma_chain_ends(g1, n, o, r, q);
    }
    assert forall|q: (usize, usize), r: (usize, usize)|
        #![trigger t.contains(q), connected(g1, n, o, q, r)]
        t.contains(q) && connected(g1, n, o, q, r) implies t.contains(r) by {
        let d = choose|d: int|
            0 <= d < k && #[trigger] takes_in_dir(g1, n, p, o, d) && in_group(g1, n, neighbor(n, p, d)->0, q);
        let a = neighbor(n, p, d)->0;
        lemma_connected_transitive(g1, n, o, a, q, r);
        assert(takes_in_dir(g1, n, p, o, d) && in_group(g1, n, a, r));
    }
}

/// Removing whole groups of stones `o` leaves every other group of stones
/// `o`, and what it borders, as it was.
pub proof fn lemma_other_group_untouched(
    g: Seq<Seq<Stone>>,
    n: int,
    o: Stone,
    k: Set<(usize, usize)>,
    r: (usize, usize),
)
    requires
        square(g, n),
        n <= usize::MAX,
        o != Stone::Empty,
        whole_groups(g, n, o, k),
        in_bounds(n, r),
        at(g, r) == o,
        !k.contains(r),
    ensures
        at(cleared(g, k), r) == o,
        group_of(cleared(g, k), n, r) == group_of(g, n, r),
        forall|s: Stone| #[trigger] touches(cleared(g, k), n, r, s) == touches(g, n, r, s),
{
    let h = cleared(g, k);
    lemma_cleared(g, n, k);
    lemma_connected_refl(g, n, r);
    lemma_connected_refl(h, n, r);
    // a stone connected to r in g is not in k
    assert forall|q: (usize, usize)| connected(g, n, o, r, q) implies !k.contains(q) by {
        lemma_connected_symmetric(g, n, o, r, q);
        if k.contains(q) {
            assert(k.contains(r));
        }
    }
    // from g to h
    let s1 = Set::new(|q: (usize, usize)| connected(h, n, o, r, q) && connected(g, n, o, r, q));
    assert(s1.contains(r));
    assert forall|a: (usize, usize), b: (usize, usize)|
        #![trigger s1.contains(a), adjacent(a, b)]
        s1.contains(a) && in_bounds(n, b) && adjacent(a, b) && at(g, b) == o implies s1.contains(b) by {
        lemma_connected_extend(g, n, o, r, a, b);
        assert(!k.contains(b));
        lemma_connected_extend(h, n, o, r, a, b);
    }
    assert(closed_under(g, n, o, s1));
    // from h to g
    let s2 = Set::new(|q: (usize, usize)| connected(g, n, o, r, q));
    assert(s2.contains(r));
    assert forall|a: (usize, usize), b: (usize, usize)|
        #![trigger s2.contains(a), adjacent(a, b)]
        s2.contains(a) && in_bounds(n, b) && adjacent(a, b) && at(h, b) == o implies s2.contains(b) by {
        lemma_connected_extend(g, n, o, r, a, b);
    }
    assert(closed_under(h, n, o, s2));
    assert forall|q: (usize, usize)| #[trigger] in_group(h, n, r, q) == in_group(g, n, r, q) by {
        if in_group(g, n, r, q) {
            lemma_closed_holds_connected(g, n, o, s1, r, q);
        }
        if in_group(h, n, r, q) {
            lemma_closed_holds_connected(h, n, o, s2, r, q);
        }
    }
    assert(group_of(h, n, r) =~= group_of(g, n, r));
    assert forall|s: Stone| #[trigger] touches(h, n, r, s) == touches(g, n, r, s) by {
        let grp = group_of(g, n, r);
        // neighbours of the group are not in k
        assert forall|a: (usize, usize), b: (usize, usize)|
            #![trigger grp.contains(a), adjacent(a, b)]
            grp.contains(a) && in_bounds(n, b) && adjacent(a, b) implies at(h, b) == at(g, b) by {
            if k.contains(b) {
                lemma_connected_extend(g, n, o, r, a, b);
                assert(!k.contains(b));
            }
        }
        if touches_set(h, n, grp, s) {
            let (a, b) = choose|a: (usize, usize), b: (usize, usize)|
                #![trigger grp.contains(a), adjacent(a, b)]
                grp.contains(a) && in_bounds(n, b) && adjacent(a, b) && at(h, b) == s;
            assert(at(g, b) == s);
        }
        if touches_set(g, n, grp, s) {
            let (a, b) = choose|a: (usize, usize), b: (usize, usize)|
                #![trigger grp.contains(a), adjacent(a, b)]
                grp.contains(a) && in_bounds(n, b) && adjacent(a, b) && at(g, b) == s;
            assert(at(h, b) == s);
        }
    }
}

/// Looking in one more direction adds the group found there when it is taken.
pub proof fn lemma_taken_next(g1: Seq<Seq<Stone>>, n: int, p: (usize, usize), o: Stone, d: int)
    requires
        0 <= d < 4,
    ensures
        taken_upto(g1, n, p, o, d + 1) == if takes_in_dir(g1, n, p, o, d) {
            taken_upto(g1, n, p, o, d) + group_of(g1, n, neighbor(n, p, d)->0)
        } else {
            taken_upto(g1, n, p, o, d)
        },
{
    let t0 = taken_upto(g1, n, p, o, d);
    let t1 = taken_upto(g1, n, p, o, d + 1);
    let r = neighbor(n, p, d)->0;
    assert forall|q: (usize, usize)| #[trigger] t1.contains(q) == (t0.contains(q) || (takes_in_dir(g1, n, p, o, d) && in_group(g1, n, r, q))) by {
        if t1.contains(q) {
            let e = choose|e: int|
                0 <= e < d + 1 && #[trigger] takes_in_dir(g1, n, p, o, e) && in_group(g1, n, neighbor(n, p, e)->0, q);
            if e < d {
                assert(t0.contains(q));
            }
        }
        if t0.contains(q) {
            let e = choose|e: int|
                0 <= e < d && #[trigger] takes_in_dir(g1, n, p, o, e) && in_group(g1, n, neighbor(n, p, e)->0, q);
            assert(t1.contains(q));
        }
        if takes_in_dir(g1, n, p, o, d) && in_group(g1, n, r, q) {
            assert(t1.contains(q));
        }
    }
    if takes_in_dir(g1, n, p, o, d) {
        assert(t1 =~= t0 + group_of(g1, n, r));
    } else {
        assert(t1 =~= t0);
    }
}

/// The group of a stone `o` already taken lies wholly among the taken
/// stones; the group of one not taken lies wholly outside them.
pub proof fn lemma_group_in_or_out(
    g: Seq<Seq<Stone>>,
    n: int,
    o: Stone,
    k: Set<(usize, usize)>,
    r: (usize, usize),
)
    requires
        whole_groups(g, n, o, k),
        in_bounds(n, r),
        at(g, r) == o,
    ensures
        k.contains(r) ==> group_of(g, n, r).subset_of(k),
        !k.contains(r) ==> group_of(g, n, r).disjoint(k),
{
    if k.contains(r) {
        assert forall|q: (usize, usize)| group_of(g, n, r).contains(q) implies k.contains(q) by {
            assert(connected(g, n, o, r, q));
        }
    } else {
        assert forall|q: (usize, usize)| group_of(g, n, r).contains(q) implies !k.contains(q) by {
            lemma_connected_symmetric(g, n, o, r, q);
            if k.contains(q) {
                assert(connected(g, n, o, q, r));
            }
        }
    }
}

/// When a move captures exactly one stone, that stone was on the board and
/// its point is empty afterwards.
pub proof fn lemma_single_capture(g: Seq<Seq<Stone>>, n: int, p: (usize, usize), c: Stone)
    requires
        square(g, n),
        n <= usize::MAX,
        crate::grid::in_bounds(n, p),
        captured(g, n, p, c).len() == 1,
    ensures
        crate::grid::in_bounds(n, captured(g, n, p, c).choose()),
        at(after_captures(g, n, p, c), captured(g, n, p, c).choose()) == Stone::Empty,
{
    let k = captured(g, n, p, c);
    let g1 = placed(g, p, c);
    crate::grid::lemma_set_at(g, n, p, c);
    lemma_taken_whole(g1, n, p, opponent_of(c), 4);
    crate::grid::lemma_on_board_finite(n, k);
    lemma_cleared(g1, n, k);
    assert(k.contains(k.choose())) by {
        if !k.contains(k.choose()) {
            assert(k =~= Set::<(usize, usize)>::empty()) by {
                assert forall|q: (usize, usize)| !k.contains(q) by {
                    if k.contains(q) {
                        assert(k.contains(k.choose()));
                    }
                }
            }
        }
    }
}

/// Taking off `a` and then `b` is taking off `a + b`.
pub proof fn lemma_cleared_twice(g: Seq<Seq<Stone>>, n: int, a: Set<(usize, usize)>, b: Set<(usize, usize)>)
    requires
        square(g, n),
        n <= usize::MAX,
    ensures
        cleared(cleared(g, a), b) == cleared(g, a + b),
{
    lemma_cleared(g, n, a);
    lemma_cleared(cleared(g, a), n, b);
    lemma_cleared(g, n, a + b);
    lemma_grid_ext(cleared(cleared(g, a), b), cleared(g, a + b), n);
}

/// Taking off nothing changes nothing.
pub proof fn lemma_cleared_empty(g: Seq<Seq<Stone>>, n: int)
    requires
        square(g, n),
        n <= usize::MAX,
    ensures
        cleared(g, Set::empty()) == g,
{
    lemma_cleared(g, n, Set::empty());
    lemma_grid_ext(cleared(g, Set::empty()), g, n);
}

} // verus!
