use vstd::prelude::*;

use crate::board::Stone;

verus! {

/// `p = (x, y)` lies on a board of side `n`.
pub open spec fn in_bounds(n: int, p: (usize, usize)) -> bool {
    p.0 < n && p.1 < n
}

/// The stone at `p = (x, y)`.
pub open spec fn at(g: Seq<Seq<Stone>>, p: (usize, usize)) -> Stone {
    g[p.1 as int][p.0 as int]
}

/// `g` has `n` rows of `n` cells each.
pub open spec fn square(g: Seq<Seq<Stone>>, n: int) -> bool {
    &&& g.len() == n
    &&& forall|y: int| 0 <= y < n ==> #[trigger] g[y].len() == n
}

/// `g` with the stone at `p` replaced by `s`.
pub open spec fn set_at(g: Seq<Seq<Stone>>, p: (usize, usize), s: Stone) -> Seq<Seq<Stone>> {
    g.update(p.1 as int, g[p.1 as int].update(p.0 as int, s))
}

/// `g` with every stone in `k` taken off the board.
pub open spec fn cleared(g: Seq<Seq<Stone>>, k: Set<(usize, usize)>) -> Seq<Seq<Stone>> {
    Seq::new(
        g.len(),
        |y: int|
            Seq::new(
                g[y].len(),
                |x: int|
                    if k.contains((x as usize, y as usize)) {
                        Stone::Empty
                    } else {
                        g[y][x]
                    },
            ),
    )
}

/// Replacing one stone keeps the board square and changes that point only.
pub proof fn lemma_set_at(g: Seq<Seq<Stone>>, n: int, p: (usize, usize), s: Stone)
    requires
        square(g, n),
        in_bounds(n, p),
    ensures
        square(set_at(g, p, s), n),
        forall|q: (usize, usize)|
            in_bounds(n, q) ==> #[trigger] at(set_at(g, p, s), q) == if q == p {
                s
            } else {
                at(g, q)
            },
{
    let h = set_at(g, p, s);
    assert forall|y: int| 0 <= y < n implies #[trigger] h[y].len() == n by {
        assert(g[y].len() == n);
    }
    assert forall|q: (usize, usize)| in_bounds(n, q) implies #[trigger] at(h, q) == if q == p {
        s
    } else {
        at(g, q)
    } by {
        assert(g[q.1 as int].len() == n);
    }
}

/// Taking stones off keeps the board square and empties exactly those points.
pub proof fn lemma_cleared(g: Seq<Seq<Stone>>, n: int, k: Set<(usize, usize)>)
    requires
        square(g, n),
        n <= usize::MAX,
    ensures
        square(cleared(g, k), n),
        forall|q: (usize, usize)|
            in_bounds(n, q) ==> #[trigger] at(cleared(g, k), q) == if k.contains(q) {
                Stone::Empty
            } else {
                at(g, q)
            },
{
    let h = cleared(g, k);
    assert forall|y: int| 0 <= y < n implies #[trigger] h[y].len() == n by {
        assert(g[y].len() == n);
    }
    assert forall|q: (usize, usize)| in_bounds(n, q) implies #[trigger] at(h, q) == if k.contains(q) {
        Stone::Empty
    } else {
        at(g, q)
    } by {
        assert(g[q.1 as int].len() == n);
        assert((q.0 as int) as usize == q.0 && (q.1 as int) as usize == q.1);
    }
}

/// Two square boards that agree on every intersection are equal.
pub proof fn lemma_grid_ext(a: Seq<Seq<Stone>>, b: Seq<Seq<Stone>>, n: int)
    requires
        square(a, n),
        square(b, n),
        n <= usize::MAX,
        forall|q: (usize, usize)| in_bounds(n, q) ==> #[trigger] at(a, q) == at(b, q),
    ensures
        a == b,
{
    assert forall|y: int| 0 <= y < n implies #[trigger] a[y] == b[y] by {
        assert(a[y].len() == n && b[y].len() == n);
        assert forall|x: int| 0 <= x < n implies a[y][x] == b[y][x] by {
            assert(at(a, (x as usize, y as usize)) == at(b, (x as usize, y as usize)));
        }
        assert(a[y] =~= b[y]);
    }
    assert(a =~= b);
}

/// `p` and `q` are one step apart horizontally or vertically.
pub open spec fn adjacent(p: (usize, usize), q: (usize, usize)) -> bool {
    ||| p.1 == q.1 && (p.0 + 1 == q.0 || q.0 + 1 == p.0)
    ||| p.0 == q.0 && (p.1 + 1 == q.1 || q.1 + 1 == p.1)
}

/// The neighbour of `p` in direction `d` (0: left, 1: right, 2: down,
/// 3: up), when it lies on a board of side `n`.
pub open spec fn neighbor(n: int, p: (usize, usize), d: int) -> Option<(usize, usize)> {
    if d == 0 {
        if p.0 > 0 { Some(((p.0 - 1) as usize, p.1)) } else { None }
    } else if d == 1 {
        if p.0 + 1 < n { Some(((p.0 + 1) as usize, p.1)) } else { None }
    } else if d == 2 {
        if p.1 > 0 { Some((p.0, (p.1 - 1) as usize)) } else { None }
    } else if d == 3 {
        if p.1 + 1 < n { Some((p.0, (p.1 + 1) as usize)) } else { None }
    } else {
        None
    }
}

/// The direction in which `q` lies from `p`, when they are adjacent.
pub open spec fn direction(p: (usize, usize), q: (usize, usize)) -> int {
    if q.0 + 1 == p.0 {
        0
    } else if p.0 + 1 == q.0 {
        1
    } else if q.1 + 1 == p.1 {
        2
    } else {
        3
    }
}

/// The neighbour of `p` in direction `d` holds `s`.
pub open spec fn hits(g: Seq<Seq<Stone>>, n: int, p: (usize, usize), d: int, s: Stone) -> bool {
    match neighbor(n, p, d) {
        Some(b) => at(g, b) == s,
        None => false,
    }
}

/// A neighbour on the board is adjacent, and lies in its own direction.
pub proof fn lemma_neighbor(n: int, p: (usize, usize), d: int)
    requires
        in_bounds(n, p),
        n <= usize::MAX,
    ensures
        neighbor(n, p, d) matches Some(q) ==> in_bounds(n, q) && adjacent(p, q) && direction(p, q) == d,
{
}

/// An adjacent point on the board is the neighbour in its direction.
pub proof fn lemma_adjacent_direction(n: int, p: (usize, usize), q: (usize, usize))
    requires
        in_bounds(n, p),
        in_bounds(n, q),
        adjacent(p, q),
    ensures
        0 <= direction(p, q) < 4,
        neighbor(n, p, direction(p, q)) == Some(q),
{
}

/// Adjacency is symmetric.
pub proof fn lemma_adjacent_symmetric(p: (usize, usize), q: (usize, usize))
    ensures
        adjacent(p, q) == adjacent(q, p),
{
}

/// Consecutive cells of `path` are adjacent at `i`.
pub open spec fn linked(path: Seq<(usize, usize)>, i: int) -> bool {
    adjacent(path[i], path[i + 1])
}

/// `path` is a non-empty walk over adjacent intersections that all hold `s`.
pub open spec fn is_chain(g: Seq<Seq<Stone>>, n: int, s: Stone, path: Seq<(usize, usize)>) -> bool {
    &&& path.len() > 0
    &&& forall|i: int| 0 <= i < path.len() ==> in_bounds(n, #[trigger] path[i]) && at(g, path[i]) == s
    &&& forall|i: int| 0 <= i < path.len() - 1 ==> #[trigger] linked(path, i)
}

/// A walk over stones `s` leads from `p` to `q`.
pub open spec fn connected(g: Seq<Seq<Stone>>, n: int, s: Stone, p: (usize, usize), q: (usize, usize)) -> bool {
    exists|path: Seq<(usize, usize)>|
        #[trigger] is_chain(g, n, s, path) && path[0] == p && path[path.len() - 1] == q
}

/// `q` belongs to the group (the maximal connected block of one colour,
/// empty points included) of the intersection `p`.
pub open spec fn in_group(g: Seq<Seq<Stone>>, n: int, p: (usize, usize), q: (usize, usize)) -> bool {
    in_bounds(n, p) && connected(g, n, at(g, p), p, q)
}

/// The group of `p`.
pub open spec fn group_of(g: Seq<Seq<Stone>>, n: int, p: (usize, usize)) -> Set<(usize, usize)> {
    Set::new(|q: (usize, usize)| in_group(g, n, p, q))
}

/// Some intersection of `k` has a neighbour holding `s`.
pub open spec fn touches_set(g: Seq<Seq<Stone>>, n: int, k: Set<(usize, usize)>, s: Stone) -> bool {
    exists|a: (usize, usize), b: (usize, usize)|
        #![trigger k.contains(a), adjacent(a, b)]
        k.contains(a) && in_bounds(n, b) && adjacent(a, b) && at(g, b) == s
}

/// The group of `p` borders an intersection holding `s`.
pub open spec fn touches(g: Seq<Seq<Stone>>, n: int, p: (usize, usize), s: Stone) -> bool {
    touches_set(g, n, group_of(g, n, p), s)
}

/// The group of `p` has a liberty: an empty point next to one of its stones.
pub open spec fn has_liberty(g: Seq<Seq<Stone>>, n: int, p: (usize, usize)) -> bool {
    touches(g, n, p, Stone::Empty)
}

/// Every neighbour holding `s` of a member of `k` is a member of `k`.
pub open spec fn closed_under(g: Seq<Seq<Stone>>, n: int, s: Stone, k: Set<(usize, usize)>) -> bool {
    forall|a: (usize, usize), b: (usize, usize)|
        #![trigger k.contains(a), adjacent(a, b)]
        k.contains(a) && in_bounds(n, b) && adjacent(a, b) && at(g, b) == s ==> k.contains(b)
}

/// Both ends of a walk over stones `s` are on the board and hold `s`.
pub proof fn lemma_chain_ends(g: Seq<Seq<Stone>>, n: int, s: Stone, p: (usize, usize), q: (usize, usize))
    requires
        connected(g, n, s, p, q),
    ensures
        in_bounds(n, p),
        in_bounds(n, q),
        at(g, p) == s,
        at(g, q) == s,
{
    let path = choose|path: Seq<(usize, usize)>|
        #[trigger] is_chain(g, n, s, path) && path[0] == p && path[path.len() - 1] == q;
    assert(in_bounds(n, path[0]));
    assert(in_bounds(n, path[path.len() - 1]));
}

/// Every point on the board reaches itself; it is in its own group.
pub proof fn lemma_connected_refl(g: Seq<Seq<Stone>>, n: int, p: (usize, usize))
    requires
        in_bounds(n, p),
    ensures
        connected(g, n, at(g, p), p, p),
        in_group(g, n, p, p),
{
    let path = seq![p];
    assert(path[0] == p);
    assert(is_chain(g, n, at(g, p), path));
}

/// A walk extends by one step onto an adjacent stone of the same kind.
pub proof fn lemma_connected_extend(
    g: Seq<Seq<Stone>>,
    n: int,
    s: Stone,
    p: (usize, usize),
    q: (usize, usize),
    r: (usize, usize),
)
    requires
        connected(g, n, s, p, q),
        in_bounds(n, r),
        at(g, r) == s,
        adjacent(q, r),
    ensures
        connected(g, n, s, p, r),
{
    let path = choose|path: Seq<(usize, usize)>|
        #[trigger] is_chain(g, n, s, path) && path[0] == p && path[path.len() - 1] == q;
    let path2 = path.push(r);
    assert forall|i: int| 0 <= i < path2.len() - 1 implies #[trigger] linked(path2, i) by {
        if i < path.len() - 1 {
            assert(linked(path, i));
        }
    }
    assert forall|i: int| 0 <= i < path2.len() implies in_bounds(n, #[trigger] path2[i]) && at(g, path2[i]) == s by {
        if i < path.len() {
            assert(path2[i] == path[i]);
        }
    }
    assert(is_chain(g, n, s, path2));
    assert(path2[0] == p);
    assert(path2[path2.len() - 1] == r);
}

/// A walk can be taken backwards.
pub proof fn lemma_connected_symmetric(
    g: Seq<Seq<Stone>>,
    n: int,
    s: Stone,
    p: (usize, usize),
    q: (usize, usize),
)
    requires
        connected(g, n, s, p, q),
    ensures
        connected(g, n, s, q, p),
{
    let path = choose|path: Seq<(usize, usize)>|
        #[trigger] is_chain(g, n, s, path) && path[0] == p && path[path.len() - 1] == q;
    let len = path.len() as int;
    let rev = Seq::new(path.len(), |i: int| path[len - 1 - i]);
    assert forall|i: int| 0 <= i < rev.len() - 1 implies #[trigger] linked(rev, i) by {
        assert(linked(path, len - 2 - i));
        lemma_adjacent_symmetric(path[len - 2 - i], path[len - 1 - i]);
    }
    assert forall|i: int| 0 <= i < rev.len() implies in_bounds(n, #[trigger] rev[i]) && at(g, rev[i]) == s by {
        assert(rev[i] == path[len - 1 - i]);
    }
    assert(is_chain(g, n, s, rev));
    assert(rev[0] == q);
    assert(rev[rev.len() - 1] == p);
}

/// Two walks that meet join into one.
pub proof fn lemma_connected_transitive(
    g: Seq<Seq<Stone>>,
    n: int,
    s: Stone,
    p: (usize, usize),
    q: (usize, usize),
    r: (usize, usize),
)
    requires
        connected(g, n, s, p, q),
        connected(g, n, s, q, r),
    ensures
        connected(g, n, s, p, r),
{
    let path1 = choose|path: Seq<(usize, usize)>|
        #[trigger] is_chain(g, n, s, path) && path[0] == p && path[path.len() - 1] == q;
    let path2 = choose|path: Seq<(usize, usize)>|
        #[trigger] is_chain(g, n, s, path) && path[0] == q && path[path.len() - 1] == r;
    let l1 = path1.len() as int;
    let joined = path1 + path2.drop_first();
    assert forall|i: int| 0 <= i < joined.len() implies in_bounds(n, #[trigger] joined[i]) && at(g, joined[i]) == s by {
        if i < l1 {
            assert(joined[i] == path1[i]);
        } else {
            assert(joined[i] == path2[i - l1 + 1]);
        }
    }
    assert forall|i: int| 0 <= i < joined.len() - 1 implies #[trigger] linked(joined, i) by {
        if i < l1 - 1 {
            assert(linked(path1, i));
        } else {
            assert(linked(path2, i - l1 + 1));
            assert(joined[i] == path2[i - l1 + 1]);
            assert(joined[i + 1] == path2[i - l1 + 2]);
        }
    }
    assert(is_chain(g, n, s, joined));
    assert(joined[0] == p);
    if path2.len() == 1 {
        assert(joined =~= path1);
    } else {
        assert(joined[joined.len() - 1] == path2[path2.len() - 1]);
    }
}

/// A set that holds `p` and is closed under adjacency among stones `s`
/// holds every intersection that a walk over stones `s` reaches from `p`.
pub proof fn lemma_closed_holds_connected(
    g: Seq<Seq<Stone>>,
    n: int,
    s: Stone,
    k: Set<(usize, usize)>,
    p: (usize, usize),
    q: (usize, usize),
)
    requires
        k.contains(p),
        closed_under(g, n, s, k),
        connected(g, n, s, p, q),
    ensures
        k.contains(q),
{
    let path = choose|path: Seq<(usize, usize)>|
        #[trigger] is_chain(g, n, s, path) && path[0] == p && path[path.len() - 1] == q;
    lemma_closed_holds_prefix(g, n, s, k, path, path.len() - 1);
}

proof fn lemma_closed_holds_prefix(
    g: Seq<Seq<Stone>>,
    n: int,
    s: Stone,
    k: Set<(usize, usize)>,
    path: Seq<(usize, usize)>,
    i: int,
)
    requires
        is_chain(g, n, s, path),
        k.contains(path[0]),
        closed_under(g, n, s, k),
        0 <= i < path.len(),
    ensures
        k.contains(path[i]),
    decreases i,
{
    if i > 0 {
        lemma_closed_holds_prefix(g, n, s, k, path, i - 1);
        assert(linked(path, i - 1));
        assert(in_bounds(n, path[i]) && at(g, path[i]) == s);
    }
}

/// A walk over stones `s` in `g` is still one in `h` when every stone `s`
/// of `g` is still there in `h`.
pub proof fn lemma_connected_lift(
    g: Seq<Seq<Stone>>,
    h: Seq<Seq<Stone>>,
    n: int,
    s: Stone,
    q: (usize, usize),
    a: (usize, usize),
)
    requires
        connected(g, n, s, q, a),
        forall|x: (usize, usize)| in_bounds(n, x) && at(g, x) == s ==> #[trigger] at(h, x) == s,
    ensures
        connected(h, n, s, q, a),
{
    lemma_chain_ends(g, n, s, q, a);
    assert(at(h, q) == s);
    lemma_connected_refl(h, n, q);
    let k = Set::new(|x: (usize, usize)| connected(h, n, s, q, x));
    assert(k.contains(q));
    assert forall|x: (usize, usize), b: (usize, usize)|
        #![trigger k.contains(x), adjacent(x, b)]
        k.contains(x) && in_bounds(n, b) && adjacent(x, b) && at(g, b) == s implies k.contains(b) by {
        assert(at(h, b) == s);
        lemma_connected_extend(h, n, s, q, x, b);
    }
    lemma_closed_holds_connected(g, n, s, k, q, a);
}

/// Membership in a group is an equivalence: the group of any member is the
/// same group.
pub proof fn lemma_group_of_member(g: Seq<Seq<Stone>>, n: int, p: (usize, usize), q: (usize, usize))
    requires
        in_group(g, n, p, q),
    ensures
        in_bounds(n, q),
        at(g, q) == at(g, p),
        in_group(g, n, q, p),
        group_of(g, n, q) == group_of(g, n, p),
{
    lemma_chain_ends(g, n, at(g, p), p, q);
    lemma_connected_symmetric(g, n, at(g, p), p, q);
    assert forall|r: (usize, usize)| in_group(g, n, q, r) <==> in_group(g, n, p, r) by {
        if in_group(g, n, q, r) {
            lemma_connected_transitive(g, n, at(g, p), p, q, r);
        }
        if in_group(g, n, p, r) {
            lemma_connected_transitive(g, n, at(g, p), q, p, r);
        }
    }
    assert(group_of(g, n, q) =~= group_of(g, n, p));
}

/// Adding `x` to a set adds exactly the neighbours of `x` to what it touches.
pub proof fn lemma_touches_insert(
    g: Seq<Seq<Stone>>,
    n: int,
    k: Set<(usize, usize)>,
    x: (usize, usize),
    s: Stone,
)
    requires
        in_bounds(n, x),
        n <= usize::MAX,
    ensures
        touches_set(g, n, k.insert(x), s) == (touches_set(g, n, k, s) || exists|d: int|
            0 <= d < 4 && #[trigger] hits(g, n, x, d, s)),
{
    if touches_set(g, n, k.insert(x), s) {
        let (a, b) = choose|a: (usize, usize), b: (usize, usize)|
            #![trigger k.insert(x).contains(a), adjacent(a, b)]
            k.insert(x).contains(a) && in_bounds(n, b) && adjacent(a, b) && at(g, b) == s;
        if a == x {
            lemma_adjacent_direction(n, x, b);
            assert(hits(g, n, x, direction(x, b), s));
        } else {
            assert(k.contains(a) && adjacent(a, b));
        }
    }
    if exists|d: int| 0 <= d < 4 && #[trigger] hits(g, n, x, d, s) {
        let d = choose|d: int| 0 <= d < 4 && #[trigger] hits(g, n, x, d, s);
        lemma_neighbor(n, x, d);
        let b = neighbor(n, x, d)->0;
        assert(k.insert(x).contains(x) && adjacent(x, b));
    }
    if touches_set(g, n, k, s) {
        let (a, b) = choose|a: (usize, usize), b: (usize, usize)|
            #![trigger k.contains(a), adjacent(a, b)]
            k.contains(a) && in_bounds(n, b) && adjacent(a, b) && at(g, b) == s;
        assert(k.insert(x).contains(a) && adjacent(a, b));
    }
}

/// The intersections of a `w` by `h` rectangle in the corner of the board.
pub open spec fn rect(w: int, h: int) -> Set<(usize, usize)> {
    Set::new(|q: (usize, usize)| q.0 < w && q.1 < h)
}

/// The first `w` intersections of row `y`.
pub open spec fn row_prefix(w: int, y: int) -> Set<(usize, usize)> {
    Set::new(|q: (usize, usize)| q.0 < w && q.1 == y)
}

proof fn lemma_row_prefix_finite(w: int, y: int)
    requires
        0 <= w <= usize::MAX,
    ensures
        row_prefix(w, y).finite(),
    decreases w,
{
    if w == 0 {
        assert(row_prefix(w, y) =~= Set::empty());
    } else if 0 <= y <= usize::MAX {
        lemma_row_prefix_finite(w - 1, y);
        assert(row_prefix(w, y) =~= row_prefix(w - 1, y).insert(((w - 1) as usize, y as usize)));
    } else {
        assert(row_prefix(w, y) =~= Set::empty());
    }
}

proof fn lemma_rect_finite(w: int, h: int)
    requires
        0 <= w <= usize::MAX,
        0 <= h,
    ensures
        rect(w, h).finite(),
    decreases h,
{
    if h == 0 {
        assert(rect(w, h) =~= Set::empty());
    } else {
        lemma_rect_finite(w, h - 1);
        lemma_row_prefix_finite(w, h - 1);
        assert(rect(w, h) =~= rect(w, h - 1).union(row_prefix(w, h - 1)));
    }
}

proof fn lemma_row_prefix_len(w: int, y: int)
    requires
        0 <= w <= usize::MAX,
        0 <= y <= usize::MAX,
    ensures
        row_prefix(w, y).finite(),
        row_prefix(w, y).len() == w,
    decreases w,
{
    if w == 0 {
        assert(row_prefix(w, y) =~= Set::empty());
    } else {
        lemma_row_prefix_len(w - 1, y);
        assert(row_prefix(w, y) =~= row_prefix(w - 1, y).insert(((w - 1) as usize, y as usize)));
        assert(!row_prefix(w - 1, y).contains(((w - 1) as usize, y as usize)));
    }
}

proof fn lemma_rect_len(w: int, h: int)
    requires
        0 <= w <= usize::MAX,
        0 <= h <= usize::MAX,
    ensures
        rect(w, h).finite(),
        rect(w, h).len() == w * h,
    decreases h,
{
    if h == 0 {
        assert(rect(w, h) =~= Set::empty());
    } else {
        lemma_rect_len(w, h - 1);
        lemma_row_prefix_len(w, h - 1);
        assert(rect(w, h) =~= rect(w, h - 1).union(row_prefix(w, h - 1)));
        assert(rect(w, h - 1).disjoint(row_prefix(w, h - 1)));
        vstd::set_lib::lemma_set_disjoint_lens(rect(w, h - 1), row_prefix(w, h - 1));
        assert(w * h == w * (h - 1) + w) by (nonlinear_arith);
    }
}

/// A set of intersections of a board of side `n` has at most `n * n`
/// members.
pub proof fn lemma_on_board_len(n: int, k: Set<(usize, usize)>)
    requires
        0 <= n <= usize::MAX,
        forall|q: (usize, usize)| #[trigger] k.contains(q) ==> in_bounds(n, q),
    ensures
        k.finite(),
        k.len() <= n * n,
{
    lemma_rect_len(n, n);
    assert(k.subset_of(rect(n, n)));
    vstd::set_lib::lemma_len_subset(k, rect(n, n));
}

/// A set of intersections of a board is finite.
pub proof fn lemma_on_board_finite(n: int, k: Set<(usize, usize)>)
    requires
        0 <= n <= usize::MAX,
        forall|q: (usize, usize)| #[trigger] k.contains(q) ==> in_bounds(n, q),
    ensures
        k.finite(),
{
    lemma_rect_finite(n, n);
    assert(k.subset_of(rect(n, n)));
    vstd::set_lib::lemma_set_subset_finite(rect(n, n), k);
}

/// Number of unmarked entries.
pub open spec fn count_unmarked(s: Seq<bool>) -> nat
    decreases s.len(),
{
    if s.len() == 0 {
        0
    } else {
        count_unmarked(s.drop_last()) + if s.last() {
            0nat
        } else {
            1nat
        }
    }
}

/// Marking an unmarked entry leaves one fewer unmarked.
pub proof fn lemma_count_mark(s: Seq<bool>, i: int)
    requires
        0 <= i < s.len(),
        !s[i],
    ensures
        count_unmarked(s.update(i, true)) + 1 == count_unmarked(s),
    decreases s.len(),
{
    let t = s.update(i, true);
    if i == s.len() - 1 {
        assert(t.drop_last() =~= s.drop_last());
    } else {
        assert(t.drop_last() =~= s.drop_last().update(i, true));
        lemma_count_mark(s.drop_last(), i);
    }
}

/// With nothing marked, every entry is unmarked.
pub proof fn lemma_count_none_marked(s: Seq<bool>)
    requires
        forall|i: int| 0 <= i < s.len() ==> !s[i],
    ensures
        count_unmarked(s) == s.len(),
    decreases s.len(),
{
    if s.len() > 0 {
        lemma_count_none_marked(s.drop_last());
    }
}

/// Row-major number of the intersection `p`.
pub open spec fn cell_index(n: int, p: (usize, usize)) -> int {
    p.1 * n + p.0
}

/// Row-major numbering maps the board one to one into `0 .. n * n`.
pub proof fn lemma_cell_index(n: int, p: (usize, usize), q: (usize, usize))
    requires
        in_bounds(n, p),
        in_bounds(n, q),
    ensures
        0 <= cell_index(n, p) < n * n,
        cell_index(n, p) == cell_index(n, q) ==> p == q,
{
    lemma_index_bound(n, p.0 as int, p.1 as int);
    if cell_index(n, p) == cell_index(n, q) {
        lemma_index_injective(n, p.0 as int, p.1 as int, q.0 as int, q.1 as int);
    }
}

proof fn lemma_index_bound(n: int, x: int, y: int)
    by (nonlinear_arith)
    requires
        0 <= x < n,
        0 <= y < n,
    ensures
        0 <= y * n + x < n * n,
{
}

proof fn lemma_index_injective(n: int, x1: int, y1: int, x2: int, y2: int)
    by (nonlinear_arith)
    requires
        0 <= x1 < n,
        0 <= y1 < n,
        0 <= x2 < n,
        0 <= y2 < n,
        y1 * n + x1 == y2 * n + x2,
    ensures
        x1 == x2,
        y1 == y2,
{
}

} // verus!
