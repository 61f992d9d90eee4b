use vstd::prelude::*;

use crate::board::{Board, Stone};
use crate::grid::{
    adjacent, at, cell_index, cleared, closed_under, count_unmarked, group_of, has_liberty, hits,
    in_bounds, in_group, lemma_adjacent_direction, lemma_cell_index, lemma_closed_holds_connected,
    lemma_connected_extend, lemma_connected_refl, lemma_count_mark, lemma_neighbor,
    lemma_touches_insert, neighbor, square, touches, touches_set,
};

verus! {

/// The neighbour of `(x, y)` in direction `d`, on a board of side `n`.
pub fn neighbor_of(n: usize, x: usize, y: usize, d: usize) -> (r: Option<(usize, usize)>)
    requires
        x < n,
        y < n,
    ensures
        r == neighbor(n as int, (x, y), d as int),
{
    if d == 0 {
        if x > 0 { Some((x - 1, y)) } else { None }
    } else if d == 1 {
        if x + 1 < n { Some((x + 1, y)) } else { None }
    } else if d == 2 {
        if y > 0 { Some((x, y - 1)) } else { None }
    } else if d == 3 {
        if y + 1 < n { Some((x, y + 1)) } else { None }
    } else {
        None
    }
}

/// What a flood fill from one intersection finds: the intersections of its
/// group, each once, and the kinds of stone that border the group.
pub struct GroupScan {
    pub cells: Vec<(usize, usize)>,
    pub touches_empty: bool,
    pub touches_black: bool,
    pub touches_white: bool,
}

/// Flood fill over the group of `(sx, sy)`.
pub fn scan_group(board: &Board, sx: usize, sy: usize) -> (res: GroupScan)
    requires
        board.wf(),
        sx < board.size,
        sy < board.size,
    ensures
        res.cells@.no_duplicates(),
        res.cells@.len() > 0 && res.cells@[0] == (sx, sy),
        res.cells@.to_set() == group_of(board.cells(), board.size as int, (sx, sy)),
        res.touches_empty == touches(board.cells(), board.size as int, (sx, sy), Stone::Empty),
        res.touches_black == touches(board.cells(), board.size as int, (sx, sy), Stone::Black),
        res.touches_white == touches(board.cells(), board.size as int, (sx, sy), Stone::White),
{
    broadcast use vstd::seq_lib::group_seq_properties;

    let n = board.size;
    let ghost g = board.cells();
    let ghost ni = n as int;
    let ghost p = (sx, sy);
    let color = board.stone_at(sx, sy);
    let total = n * n;
    let mut vis: Vec<bool> = Vec::new();
    while vis.len() < total
        invariant
            vis@.len() <= total,
            forall|i: int| 0 <= i < vis@.len() ==> !vis@[i],
        decreases total - vis@.len(),
    {
        vis.push(false);
    }
    let mut stack: Vec<(usize, usize)> = Vec::new();
    stack.push((sx, sy));
    let mut cells: Vec<(usize, usize)> = Vec::new();
    let mut te = false;
    let mut tb = false;
    let mut tw = false;
    proof {
        lemma_connected_refl(g, ni, p);
        assert(stack@[0] == p);
        assert(cells@.to_set() =~= Set::empty());
        assert forall|q: (usize, usize)|
            in_bounds(ni, q) implies (#[trigger] vis@[cell_index(ni, q)] <==> cells@.contains(q)) by {
            lemma_cell_index(ni, q, q);
        }
    }
    while stack.len() > 0
        invariant
            board.wf(),
            n == board.size,
            ni == n as int,
            g == board.cells(),
            total == n * n,
            in_bounds(ni, p),
            color == at(g, p),
            vis@.len() == total,
            forall|q: (usize, usize)|
                in_bounds(ni, q) ==> (#[trigger] vis@[cell_index(ni, q)] <==> cells@.contains(q)),
            cells@.no_duplicates(),
            forall|i: int|
                0 <= i < cells@.len() ==> in_bounds(ni, #[trigger] cells@[i]) && in_group(
                    g,
                    ni,
                    p,
                    cells@[i],
                ),
            forall|i: int|
                0 <= i < stack@.len() ==> in_bounds(ni, #[trigger] stack@[i]) && in_group(
                    g,
                    ni,
                    p,
                    stack@[i],
                ),
            cells@.contains(p) || stack@.contains(p),
            cells@.len() == 0 ==> stack@ == seq![p],
            cells@.len() > 0 ==> cells@[0] == p,
            forall|a: (usize, usize), b: (usize, usize)|
                #![trigger cells@.contains(a), adjacent(a, b)]
                cells@.contains(a) && in_bounds(ni, b) && adjacent(a, b) && at(g, b) == color
                    ==> cells@.contains(b) || stack@.contains(b),
            te == touches_set(g, ni, cells@.to_set(), Stone::Empty),
            tb == touches_set(g, ni, cells@.to_set(), Stone::Black),
            tw == touches_set(g, ni, cells@.to_set(), Stone::White),
        decreases count_unmarked(vis@), stack@.len(),
    {
        let ghost stack_before = stack@;
        let (x, y) = stack.pop().unwrap();
        proof {
            assert(stack_before == stack@.push((x, y)));
            assert(stack_before[stack_before.len() - 1] == (x, y));
            lemma_cell_index(ni, (x, y), (x, y));
        }
        let k = y * n + x;
        if !vis[k] {
            let ghost cells_before = cells@;
            let ghost vis_before = vis@;
            proof {
                lemma_count_mark(vis@, k as int);
            }
            vis.set(k, true);
            cells.push((x, y));
            proof {
                assert forall|q: (usize, usize)|
                    in_bounds(ni, q) implies (#[trigger] vis@[cell_index(ni, q)]
                    <==> cells@.contains(q)) by {
                    lemma_cell_index(ni, q, (x, y));
                    if q != (x, y) {
                        assert(vis@[cell_index(ni, q)] == vis_before[cell_index(ni, q)]);
                        if cells@.contains(q) {
                            let i = choose|i: int| 0 <= i < cells@.len() && cells@[i] == q;
                            assert(cells_before[i] == q);
                        }
                        if cells_before.contains(q) {
                            let i = choose|i: int| 0 <= i < cells_before.len() && cells_before[i] == q;
                            assert(cells@[i] == q);
                        }
                    } else {
                        assert(cells@[cells@.len() - 1] == q);
                    }
                }
                cells_before.lemma_push_to_set_commute((x, y));
                assert(cells@.to_set() =~= cells_before.to_set().insert((x, y)));
                lemma_touches_insert(g, ni, cells_before.to_set(), (x, y), Stone::Empty);
                lemma_touches_insert(g, ni, cells_before.to_set(), (x, y), Stone::Black);
                lemma_touches_insert(g, ni, cells_before.to_set(), (x, y), Stone::White);
            }
            let ghost stack_mid = stack@;
            let ghost te0 = te;
            let ghost tb0 = tb;
            let ghost tw0 = tw;
            let mut d: usize = 0;
            while d < 4
                invariant
                    board.wf(),
                    n == board.size,
                    ni == n as int,
                    g == board.cells(),
                    total == n * n,
                    x < n,
                    y < n,
                    in_group(g, ni, p, (x, y)),
                    color == at(g, p),
                    d <= 4,
                    stack@.len() >= stack_mid.len(),
                    forall|i: int| 0 <= i < stack_mid.len() ==> stack@[i] == stack_mid[i],
                    forall|i: int|
                        0 <= i < stack@.len() ==> in_bounds(ni, #[trigger] stack@[i]) && in_group(
                            g,
                            ni,
                            p,
                            stack@[i],
                        ),
                    forall|e: int|
                        0 <= e < d && #[trigger] hits(g, ni, (x, y), e, color) ==> cells@.contains(
                            neighbor(ni, (x, y), e)->0,
                        ) || stack@.contains(neighbor(ni, (x, y), e)->0),
                    te == (te0 || exists|e: int| 0 <= e < d && #[trigger] hits(g, ni, (x, y), e, Stone::Empty)),
                    tb == (tb0 || exists|e: int| 0 <= e < d && #[trigger] hits(g, ni, (x, y), e, Stone::Black)),
                    tw == (tw0 || exists|e: int| 0 <= e < d && #[trigger] hits(g, ni, (x, y), e, Stone::White)),
                    vis@.len() == total,
                    forall|q: (usize, usize)|
                        in_bounds(ni, q) ==> (#[trigger] vis@[cell_index(ni, q)] <==> cells@.contains(q)),
                decreases 4 - d,
            {
                let ghost stack_d = stack@;
                match neighbor_of(n, x, y, d) {
                    Some((nx, ny)) => {
                        proof {
                            lemma_neighbor(ni, (x, y), d as int);
                            lemma_cell_index(ni, (nx, ny), (nx, ny));
                        }
                        let s = board.stone_at(nx, ny);
                        match s {
                            Stone::Empty => { te = true; },
                            Stone::Black => { tb = true; },
                            Stone::White => { tw = true; },
                        }
                        if s == color && !vis[ny * n + nx] {
                            stack.push((nx, ny));
                            proof {
                                lemma_connected_extend(g, ni, color, p, (x, y), (nx, ny));
                                assert(stack@[stack@.len() - 1] == (nx, ny));
                            }
                        }
                        proof {
                            assert forall|e: int|
                                0 <= e < d + 1 && #[trigger] hits(g, ni, (x, y), e, color) implies cells@.contains(
                                neighbor(ni, (x, y), e)->0,
                            ) || stack@.contains(neighbor(ni, (x, y), e)->0) by {
                                if e < d {
                                    let b = neighbor(ni, (x, y), e)->0;
                                    if stack_d.contains(b) {
                                        let i = choose|i: int| 0 <= i < stack_d.len() && stack_d[i] == b;
                                        assert(stack@[i] == b);
                                    }
                                } else {
                                    if !cells@.contains((nx, ny)) {
                                        assert(stack@[stack@.len() - 1] == (nx, ny));
                                    }
                                }
                            }
                            assert(hits(g, ni, (x, y), d as int, s));
                        }
                    },
                    None => {
                        proof {
                            assert forall|e: int|
                                0 <= e < d + 1 && #[trigger] hits(g, ni, (x, y), e, color) implies cells@.contains(
                                neighbor(ni, (x, y), e)->0,
                            ) || stack@.contains(neighbor(ni, (x, y), e)->0) by {
                                if e == d {
                                    assert(!hits(g, ni, (x, y), e, color));
                                }
                            }
                        }
                    },
                }
                d = d + 1;
            }
            proof {
                // the neighbours of (x, y) are now accounted for
                assert forall|a: (usize, usize), b: (usize, usize)|
                    #![trigger cells@.contains(a), adjacent(a, b)]
                    cells@.contains(a) && in_bounds(ni, b) && adjacent(a, b) && at(g, b) == color
                        implies cells@.contains(b) || stack@.contains(b) by {
                    if a == (x, y) {
                        lemma_adjacent_direction(ni, (x, y), b);
                        assert(hits(g, ni, (x, y), crate::grid::direction((x, y), b), color));
                    } else {
                        let i = choose|i: int| 0 <= i < cells@.len() && cells@[i] == a;
                        assert(cells_before[i] == a);
                        assert(cells_before.contains(a));
                        if cells_before.contains(b) {
                            let j = choose|j: int| 0 <= j < cells_before.len() && cells_before[j] == b;
                            assert(cells@[j] == b);
                        }
                        if stack_before.contains(b) {
                            let j = choose|j: int| 0 <= j < stack_before.len() && stack_before[j] == b;
                            if j < stack_mid.len() {
                                assert(stack@[j] == b);
                            } else {
                                assert(b == (x, y));
                                assert(cells@[cells@.len() - 1] == b);
                            }
                        }
                    }
                }
                if stack_before.contains(p) && !cells@.contains(p) {
                    let j = choose|j: int| 0 <= j < stack_before.len() && stack_before[j] == p;
                    if j < stack_mid.len() {
                        assert(stack@[j] == p);
                    } else {
                        assert(cells@[cells@.len() - 1] == p);
                    }
                }
                if cells_before.contains(p) {
                    let i = choose|i: int| 0 <= i < cells_before.len() && cells_before[i] == p;
                    assert(cells@[i] == p);
                }
                assert forall|i: int| 0 <= i < cells@.len() implies in_bounds(ni, #[trigger] cells@[i])
                    && in_group(g, ni, p, cells@[i]) by {
                    if i < cells_before.len() {
                        assert(cells@[i] == cells_before[i]);
                    }
                }
            }
        } else {
            proof {
                assert forall|a: (usize, usize), b: (usize, usize)|
                    #![trigger cells@.contains(a), adjacent(a, b)]
                    cells@.contains(a) && in_bounds(ni, b) && adjacent(a, b) && at(g, b) == color
                        implies cells@.contains(b) || stack@.contains(b) by {
                    if stack_before.contains(b) && b != (x, y) {
                        let j = choose|j: int| 0 <= j < stack_before.len() && stack_before[j] == b;
                        assert(stack@[j] == b);
                    }
                }
                if stack_before.contains(p) && p != (x, y) {
                    let j = choose|j: int| 0 <= j < stack_before.len() && stack_before[j] == p;
                    assert(stack@[j] == p);
                }
            }
        }
    }
    proof {
        let k = cells@.to_set();
        assert(closed_under(g, ni, color, k));
        assert forall|q: (usize, usize)| #[trigger] k.contains(q) == group_of(g, ni, p).contains(q) by {
            if group_of(g, ni, p).contains(q) {
                lemma_closed_holds_connected(g, ni, color, k, p, q);
            }
            if k.contains(q) {
                let i = choose|i: int| 0 <= i < cells@.len() && cells@[i] == q;
                assert(in_group(g, ni, p, cells@[i]));
            }
        }
        assert(k =~= group_of(g, ni, p));
    }
    GroupScan { cells, touches_empty: te, touches_black: tb, touches_white: tw }
}

/// The group of `(start_x, start_y)` has a liberty: an empty intersection
/// next to one of its stones.
pub fn has_liberties(board: &Board, start_x: usize, start_y: usize) -> (res: bool)
    requires
        board.wf(),
        start_x < board.size,
        start_y < board.size,
    ensures
        res == has_liberty(board.cells(), board.size as int, (start_x, start_y)),
{
    scan_group(board, start_x, start_y).touches_empty
}

/// Takes the group of `(start_x, start_y)` off the board and returns its
/// intersections, each once.
pub fn remove_group(board: &mut Board, start_x: usize, start_y: usize) -> (removed: Vec<(usize, usize)>)
    requires
        old(board).wf(),
        start_x < old(board).size,
        start_y < old(board).size,
    ensures
        final(board).wf(),
        final(board).same_but_stones(&*old(board)),
        removed@.no_duplicates(),
        removed@.len() > 0 && removed@[0] == (start_x, start_y),
        removed@.to_set() == group_of(old(board).cells(), old(board).size as int, (start_x, start_y)),
        final(board).cells() == cleared(
            old(board).cells(),
            group_of(old(board).cells(), old(board).size as int, (start_x, start_y)),
        ),
{
    broadcast use vstd::seq_lib::group_seq_properties;

    let ghost b0 = *board;
    let ghost g0 = board.cells();
    let ghost ni = board.size as int;
    let scan = scan_group(board, start_x, start_y);
    let cells = scan.cells;
    let ghost k = group_of(g0, ni, (start_x, start_y));
    proof {
        assert forall|i: int| 0 <= i < cells@.len() implies in_bounds(ni, #[trigger] cells@[i]) by {
            assert(cells@.to_set().contains(cells@[i]));
            crate::grid::lemma_group_of_member(g0, ni, (start_x, start_y), cells@[i]);
        }
    }
    let mut i: usize = 0;
    while i < cells.len()
        invariant
            board.wf(),
            board.same_but_stones(&b0),
            ni == board.size as int,
            ni <= usize::MAX,
            square(g0, ni),
            i <= cells@.len(),
            forall|j: int| 0 <= j < cells@.len() ==> in_bounds(ni, #[trigger] cells@[j]),
            forall|q: (usize, usize)|
                in_bounds(ni, q) ==> #[trigger] at(board.cells(), q) == if cells@.subrange(
                    0,
                    i as int,
                ).contains(q) {
                    Stone::Empty
                } else {
                    at(g0, q)
                },
        decreases cells@.len() - i,
    {
        let (cx, cy) = cells[i];
        let ghost before = board.cells();
        board.put(cx, cy, Stone::Empty);
        proof {
            crate::grid::lemma_set_at(before, ni, (cx, cy), Stone::Empty);
            assert forall|q: (usize, usize)| in_bounds(ni, q) implies #[trigger] at(board.cells(), q)
                == if cells@.subrange(0, i + 1).contains(q) {
                Stone::Empty
            } else {
                at(g0, q)
            } by {
                let pre = cells@.subrange(0, i as int);
                let post = cells@.subrange(0, i + 1);
                if pre.contains(q) {
                    let j = choose|j: int| 0 <= j < pre.len() && pre[j] == q;
                    assert(post[j] == q);
                }
                if post.contains(q) && q != (cx, cy) {
                    let j = choose|j: int| 0 <= j < post.len() && post[j] == q;
                    assert(pre[j] == q);
                }
                if q == (cx, cy) {
                    assert(post[i as int] == q);
                }
            }
        }
        i = i + 1;
    }
    proof {
        assert(cells@.subrange(0, cells@.len() as int) =~= cells@);
        crate::grid::lemma_cleared(g0, ni, k);
        assert forall|q: (usize, usize)| in_bounds(ni, q) implies #[trigger] at(board.cells(), q)
            == at(cleared(g0, k), q) by {
            assert(cells@.contains(q) == cells@.to_set().contains(q));
        }
        crate::grid::lemma_grid_ext(board.cells(), cleared(g0, k), ni);
    }
    cells
}

} // verus!
