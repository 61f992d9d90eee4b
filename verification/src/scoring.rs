use vstd::prelude::*;

use crate::board::{opponent_of, Board, Stone};
use crate::grid::{
    at, cell_index, count_unmarked, group_of, in_bounds, in_group, lemma_cell_index,
    lemma_count_mark, lemma_count_none_marked, lemma_group_of_member, square, touches,
};
use crate::group::scan_group;

verus! {

/// The empty point `p` is territory of `s`: its empty region borders
/// stones of `s` and none of the other colour.
pub open spec fn owned_by(g: Seq<Seq<Stone>>, n: int, p: (usize, usize), s: Stone) -> bool {
    &&& at(g, p) == Stone::Empty
    &&& touches(g, n, p, s)
    &&& !touches(g, n, p, opponent_of(s))
}

/// The territory of `s`: every empty point whose region borders only `s`.
pub open spec fn territory(g: Seq<Seq<Stone>>, n: int, s: Stone) -> Set<(usize, usize)> {
    Set::new(|p: (usize, usize)| in_bounds(n, p) && owned_by(g, n, p, s))
}

/// The members of `k` that are territory of `s`.
pub open spec fn owned_in(g: Seq<Seq<Stone>>, n: int, k: Set<(usize, usize)>, s: Stone) -> Set<(usize, usize)> {
    k.filter(|p: (usize, usize)| owned_by(g, n, p, s))
}

/// Every member of `k` is an empty point whose whole region lies in `k`.
pub open spec fn whole_regions(g: Seq<Seq<Stone>>, n: int, k: Set<(usize, usize)>) -> bool {
    forall|q: (usize, usize)| #[trigger] k.contains(q) ==> {
        &&& in_bounds(n, q)
        &&& at(g, q) == Stone::Empty
        &&& group_of(g, n, q).subset_of(k)
    }
}

/// The intersections before `(sx, sy)` in row-major order.
pub open spec fn before(q: (usize, usize), sx: int, sy: int) -> bool {
    q.1 < sy || (q.1 == sy && q.0 < sx)
}

/// Territory of Black and of White, counted by flood-filling each empty
/// region once (Japanese rules): a region counts for a colour when it
/// borders stones of that colour only.
pub fn calculate_territory(board: &Board) -> (res: (usize, usize))
    requires
        board.wf(),
    ensures
        res.0 == territory(board.cells(), board.size as int, Stone::Black).len(),
        res.1 == territory(board.cells(), board.size as int, Stone::White).len(),
{
    broadcast use vstd::seq_lib::group_seq_properties;
    broadcast use vstd::set_lib::group_set_properties;

    let n = board.size;
    let ghost g = board.cells();
    let ghost ni = n as int;
    let total = n * n;
    let mut vis: Vec<bool> = Vec::new();
    while vis.len() < total
        invariant
            vis@.len() <= total,
            forall|i: int| 0 <= i < vis@.len() ==> !vis@[i],
        decreases total - vis@.len(),
    {
        vis.push(false);
    }
    let ghost mut seen: Set<(usize, usize)> = Set::empty();
    proof {
        lemma_count_none_marked(vis@);
        assert forall|q: (usize, usize)|
            in_bounds(ni, q) implies (#[trigger] vis@[cell_index(ni, q)] <==> seen.contains(q)) by {
            lemma_cell_index(ni, q, q);
        }
        assert(owned_in(g, ni, seen, Stone::Black) =~= Set::empty());
        assert(owned_in(g, ni, seen, Stone::White) =~= Set::empty());
    }
    let mut black: usize = 0;
    let mut white: usize = 0;
    let mut sy: usize = 0;
    while sy < n
        invariant
            board.wf(),
            n == board.size,
            ni == n as int,
            g == board.cells(),
            total == n * n,
            sy <= n,
            vis@.len() == total,
            forall|q: (usize, usize)|
                in_bounds(ni, q) ==> (#[trigger] vis@[cell_index(ni, q)] <==> seen.contains(q)),
            seen.finite(),
            seen.len() + count_unmarked(vis@) == total,
            whole_regions(g, ni, seen),
            forall|q: (usize, usize)|
                in_bounds(ni, q) && at(g, q) == Stone::Empty && q.1 < sy ==> #[trigger] seen.contains(q),
            black == owned_in(g, ni, seen, Stone::Black).len(),
            white == owned_in(g, ni, seen, Stone::White).len(),
            black + white <= seen.len(),
        decreases n - sy,
    {
        let mut sx: usize = 0;
        while sx < n
            invariant
                board.wf(),
                n == board.size,
                ni == n as int,
                g == board.cells(),
                total == n * n,
                sy < n,
                sx <= n,
                vis@.len() == total,
                forall|q: (usize, usize)|
                    in_bounds(ni, q) ==> (#[trigger] vis@[cell_index(ni, q)] <==> seen.contains(q)),
                seen.finite(),
                seen.len() + count_unmarked(vis@) == total,
                whole_regions(g, ni, seen),
                forall|q: (usize, usize)|
                    in_bounds(ni, q) && at(g, q) == Stone::Empty && before(q, sx as int, sy as int)
                        ==> #[trigger] seen.contains(q),
                black == owned_in(g, ni, seen, Stone::Black).len(),
                white == owned_in(g, ni, seen, Stone::White).len(),
                black + white <= seen.len(),
            decreases n - sx,
        {
            let ghost start = (sx, sy);
            proof {
                lemma_cell_index(ni, start, start);
            }
            let k = sy * n + sx;
            if !vis[k] && board.stone_at(sx, sy) == Stone::Empty {
                let scan = scan_group(board, sx, sy);
                let m = scan.cells.len();
                let ghost region = group_of(g, ni, start);
                let ghost seen0 = seen;
                proof {
                    // the new region lies outside what has been seen
                    assert forall|q: (usize, usize)| region.contains(q) implies !seen0.contains(q) by {
                        if seen0.contains(q) {
                            lemma_group_of_member(g, ni, start, q);
                            assert(group_of(g, ni, q).contains(start));
                        }
                    }
                    assert forall|i: int| 0 <= i < scan.cells@.len() implies in_bounds(
                        ni,
                        #[trigger] scan.cells@[i],
                    ) && region.contains(scan.cells@[i]) by {
                        assert(scan.cells@.to_set().contains(scan.cells@[i]));
                        lemma_group_of_member(g, ni, start, scan.cells@[i]);
                    }
                }
                let mut i: usize = 0;
                while i < m
                    invariant
                        board.wf(),
                        n == board.size,
                        ni == n as int,
                        g == board.cells(),
                        total == n * n,
                        m == scan.cells@.len(),
                        i <= m,
                        scan.cells@.no_duplicates(),
                        forall|j: int|
                            0 <= j < scan.cells@.len() ==> in_bounds(ni, #[trigger] scan.cells@[j])
                                && region.contains(scan.cells@[j]),
                        forall|q: (usize, usize)| region.contains(q) ==> !seen0.contains(q),
                        seen0.finite(),
                        seen == seen0 + scan.cells@.subrange(0, i as int).to_set(),
                        seen.finite(),
                        vis@.len() == total,
                        forall|q: (usize, usize)|
                            in_bounds(ni, q) ==> (#[trigger] vis@[cell_index(ni, q)] <==> seen.contains(q)),
                        seen.len() + count_unmarked(vis@) == total,
                    decreases m - i,
                {
                    let (cx, cy) = scan.cells[i];
                    let ghost c = (cx, cy);
                    proof {
                        lemma_cell_index(ni, c, c);
                        let pre = scan.cells@.subrange(0, i as int);
                        if pre.contains(c) {
                            let j = choose|j: int| 0 <= j < pre.len() && pre[j] == c;
                            assert(scan.cells@[j] == scan.cells@[i as int]);
                        }
                        assert(!seen.contains(c));
                        lemma_count_mark(vis@, cell_index(ni, c));
                    }
                    let ghost vis0 = vis@;
                    let ghost seen_i = seen;
                    vis.set(cy * n + cx, true);
                    proof {
                        seen = seen.insert(c);
                        let pre = scan.cells@.subrange(0, i as int);
                        let post = scan.cells@.subrange(0, i + 1);
                        assert(post =~= pre.push(c));
                        pre.lemma_push_to_set_commute(c);
                        assert(seen =~= seen0 + post.to_set());
                        assert forall|q: (usize, usize)|
                            in_bounds(ni, q) implies (#[trigger] vis@[cell_index(ni, q)]
                            <==> seen.contains(q)) by {
                            lemma_cell_index(ni, q, c);
                            if q != c {
                                assert(vis@[cell_index(ni, q)] == vis0[cell_index(ni, q)]);
                            }
                        }
                    }
                    i = i + 1;
                }
                proof {
                    assert(scan.cells@.subrange(0, m as int) =~= scan.cells@);
                    assert(seen =~= seen0 + region);
                    scan.cells@.unique_seq_to_set();
                    assert(region.len() == m);
                    assert(seen0.disjoint(region));
                    vstd::set_lib::lemma_set_disjoint_lens(seen0, region);
                    // every member of the region has the region as its group
                    assert forall|q: (usize, usize)| region.contains(q) implies group_of(g, ni, q)
                        == region && at(g, q) == Stone::Empty by {
                        lemma_group_of_member(g, ni, start, q);
                    }
                    assert(whole_regions(g, ni, seen));
                    assert forall|q: (usize, usize)|
                        in_bounds(ni, q) && at(g, q) == Stone::Empty && before(
                            q,
                            sx + 1,
                            sy as int,
                        ) implies #[trigger] seen.contains(q) by {
                        if q == start {
                            crate::grid::lemma_connected_refl(g, ni, start);
                            assert(region.contains(start));
                        } else {
                            assert(before(q, sx as int, sy as int));
                            assert(seen0.contains(q));
                        }
                    }
                    lemma_owned_grow(g, ni, seen0, region, start, Stone::Black);
                    lemma_owned_grow(g, ni, seen0, region, start, Stone::White);
                }
                if scan.touches_black && !scan.touches_white {
                    black = black + m;
                } else if !scan.touches_black && scan.touches_white {
                    white = white + m;
                }
            } else {
                proof {
                    assert forall|q: (usize, usize)|
                        in_bounds(ni, q) && at(g, q) == Stone::Empty && before(
                            q,
                            sx + 1,
                            sy as int,
                        ) implies #[trigger] seen.contains(q) by {
                        if q != start {
                            assert(before(q, sx as int, sy as int));
                        }
                    }
                }
            }
            sx = sx + 1;
        }
        proof {
            assert forall|q: (usize, usize)|
                in_bounds(ni, q) && at(g, q) == Stone::Empty && q.1 < sy + 1 implies #[trigger] seen.contains(q) by {
                assert(before(q, n as int, sy as int));
            }
        }
        sy = sy + 1;
    }
    proof {
        assert(owned_in(g, ni, seen, Stone::Black) =~= territory(g, ni, Stone::Black));
        assert(owned_in(g, ni, seen, Stone::White) =~= territory(g, ni, Stone::White));
    }
    (black, white)
}

/// Adding a whole empty region to the seen points adds all of it, or none
/// of it, to the territory of `s` found so far.
proof fn lemma_owned_grow(
    g: Seq<Seq<Stone>>,
    n: int,
    seen: Set<(usize, usize)>,
    region: Set<(usize, usize)>,
    start: (usize, usize),
    s: Stone,
)
    requires
        seen.finite(),
        region.finite(),
        seen.disjoint(region),
        region == group_of(g, n, start),
        in_bounds(n, start),
        at(g, start) == Stone::Empty,
        forall|q: (usize, usize)| region.contains(q) ==> group_of(g, n, q) == region && at(g, q) == Stone::Empty,
    ensures
        owned_in(g, n, seen + region, s).finite(),
        owned_in(g, n, seen + region, s).len() == owned_in(g, n, seen, s).len() + if owned_by(
            g,
            n,
            start,
            s,
        ) {
            region.len()
        } else {
            0
        },
{
    broadcast use vstd::set_lib::group_set_properties;

    let before_set = owned_in(g, n, seen, s);
    let after_set = owned_in(g, n, seen + region, s);
    assert forall|q: (usize, usize)| region.contains(q) implies #[trigger] owned_by(g, n, q, s) == owned_by(
        g,
        n,
        start,
        s,
    ) by {
        assert(group_of(g, n, q) == group_of(g, n, start));
    }
    if owned_by(g, n, start, s) {
        assert(after_set =~= before_set + region);
        assert(before_set.disjoint(region));
        vstd::set_lib::lemma_set_disjoint_lens(before_set, region);
    } else {
        assert(after_set =~= before_set);
    }
}

/// The final count of a game.  Points are whole for Black; White's total
/// includes komi and is kept in tenths of a point.
pub struct FinalScore {
    pub black_territory: usize,
    pub white_territory: usize,
    pub black_captures: usize,
    pub white_captures: usize,
    pub komi_tenths: usize,
    pub black_total: u128,
    pub white_total_tenths: u128,
    pub black_wins: bool,
    pub margin_tenths: u128,
}

/// Totals the count: Black has territory plus captures, White has
/// territory plus captures plus komi; Black wins only with strictly more
/// points, and the margin is the difference in tenths of a point.
pub fn make_score(
    black_territory: usize,
    white_territory: usize,
    black_captures: usize,
    white_captures: usize,
    komi_tenths: usize,
) -> (s: FinalScore)
    ensures
        s.black_territory == black_territory,
        s.white_territory == white_territory,
        s.black_captures == black_captures,
        s.white_captures == white_captures,
        s.komi_tenths == komi_tenths,
        s.black_total == black_territory + black_captures,
        s.white_total_tenths == (white_territory + white_captures) * 10 + komi_tenths,
        s.black_wins == (s.black_total * 10 > s.white_total_tenths),
        s.margin_tenths == if s.black_wins {
            s.black_total * 10 - s.white_total_tenths
        } else {
            s.white_total_tenths - s.black_total * 10
        },
{
    let black_total = black_territory as u128 + black_captures as u128;
    let white_total_tenths = (white_territory as u128 + white_captures as u128) * 10
        + komi_tenths as u128;
    let black_tenths = black_total * 10;
    let black_wins = black_tenths > white_total_tenths;
    let margin_tenths = if black_wins {
        black_tenths - white_total_tenths
    } else {
        white_total_tenths - black_tenths
    };
    FinalScore {
        black_territory,
        white_territory,
        black_captures,
        white_captures,
        komi_tenths,
        black_total,
        white_total_tenths,
        black_wins,
        margin_tenths,
    }
}

/// Once the game is over, and only the first time: marks the result as
/// shown, counts and stores both territories, and returns the final count.
pub fn on_game_over(board: &mut Board) -> (res: Option<FinalScore>)
    requires
        old(board).wf(),
    ensures
        final(board).wf(),
        old(board).consistent() ==> final(board).consistent(),
        final(board).cells() == old(board).cells(),
        !old(board).game_over || old(board).overlay_spawned ==> res is None && final(board).same_but_stones(
            &*old(board),
        ),
        old(board).game_over && !old(board).overlay_spawned ==> {
            let g = old(board).cells();
            let n = old(board).size as int;
            let bt = territory(g, n, Stone::Black).len();
            let wt = territory(g, n, Stone::White).len();
            &&& final(board).overlay_spawned
            &&& final(board).black_territory == bt
            &&& final(board).white_territory == wt
            &&& final(board).size == old(board).size
            &&& final(board).turn == old(board).turn
            &&& final(board).black_captures == old(board).black_captures
            &&& final(board).white_captures == old(board).white_captures
            &&& final(board).consecutive_passes == old(board).consecutive_passes
            &&& final(board).ko_forbidden == old(board).ko_forbidden
            &&& final(board).game_over
            &&& final(board).komi_tenths == old(board).komi_tenths
            &&& res matches Some(s) && {
                &&& s.black_territory == bt
                &&& s.white_territory == wt
                &&& s.black_captures == old(board).black_captures
                &&& s.white_captures == old(board).white_captures
                &&& s.komi_tenths == old(board).komi_tenths
                &&& s.black_total == bt + old(board).black_captures
                &&& s.white_total_tenths == (wt + old(board).white_captures) * 10 + old(board).komi_tenths
                &&& s.black_wins == (s.black_total * 10 > s.white_total_tenths)
                &&& s.margin_tenths == if s.black_wins {
                    s.black_total * 10 - s.white_total_tenths
                } else {
                    s.white_total_tenths - s.black_total * 10
                }
            }
        },
{
    if !board.game_over || board.overlay_spawned {
        return None;
    }
    board.overlay_spawned = true;
    let (bt, wt) = calculate_territory(board);
    board.black_territory = bt;
    board.white_territory = wt;
    Some(make_score(bt, wt, board.black_captures, board.white_captures, board.komi_tenths))
}

} // verus!
