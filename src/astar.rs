use vstd::prelude::*;
use crate::grid::{adjacent, direction_to, inner, lemma_neighbor, lemma_neighbor_cover, lemma_walk_prefix, CellType, Grid, Point};
use crate::matrix::{
    entry, is_matrix, lemma_unset_all_false, lemma_unset_update, new_matrix, set_entry, unset,
};
use crate::trace::{lemma_depth_inner, lemma_walk_closed, parent_chain};

verus! {

/// Manhattan distance.
pub open spec fn manhattan(a: Point, b: Point) -> int {
    (if a.x >= b.x {
        a.x - b.x
    } else {
        b.x - a.x
    }) + (if a.y >= b.y {
        a.y - b.y
    } else {
        b.y - a.y
    })
}

/// The priority of a point: its cost from the start plus its Manhattan
/// distance to `dest`.
pub open spec fn f_score(cost: Seq<Vec<usize>>, dest: Point, p: Point) -> int {
    entry(cost, p) + manhattan(p, dest)
}

/// A walk takes at least as many steps between two of its points as their
/// Manhattan distance.
pub proof fn lemma_walk_manhattan(g: Grid, w: Seq<Point>, i: int, j: int)
    requires
        g.is_walk(w),
        0 <= i <= j < w.len(),
    ensures
        manhattan(w[i], w[j]) <= j - i,
    decreases j - i,
{
    if i < j {
        lemma_walk_manhattan(g, w, i, j - 1);
        assert(adjacent(w[j - 1], w[j]));
    }
}

/// Each point of the open list is in bounds, known and not closed; each
/// known point that is not closed is on the list once.
#[verifier::opaque]
pub open spec fn open_list_ok(g: Grid, known: Seq<Vec<bool>>, closed: Seq<Vec<bool>>, open: Seq<Point>) -> bool {
    &&& open.no_duplicates()
    &&& forall|i: int|
        0 <= i < open.len() ==> g.in_bounds(#[trigger] open[i]) && entry(known, open[i]) && !entry(closed, open[i])
    &&& forall|p: Point| g.in_bounds(p) && #[trigger] entry(known, p) && !entry(closed, p) ==> open.contains(p)
}

/// Closed points are known; the parent of every known point but the start is
/// closed.
#[verifier::opaque]
pub open spec fn parents_closed(
    g: Grid,
    start: Point,
    known: Seq<Vec<bool>>,
    closed: Seq<Vec<bool>>,
    parent: Seq<Vec<Point>>,
) -> bool {
    &&& forall|p: Point| g.in_bounds(p) && #[trigger] entry(closed, p) ==> entry(known, p)
    &&& forall|p: Point|
        g.in_bounds(p) && #[trigger] entry(known, p) && p != start ==> entry(closed, entry(parent, p))
}

/// The cost of a closed point is no more than the steps of any walk to it.
#[verifier::opaque]
pub open spec fn closed_optimal(g: Grid, start: Point, closed: Seq<Vec<bool>>, cost: Seq<Vec<usize>>) -> bool {
    forall|c: Point, w: Seq<Point>|
        g.in_bounds(c) && entry(closed, c) && #[trigger] g.is_route_to(start, c, w) ==> entry(cost, c) + 1
            <= w.len()
}

/// Every open neighbour of `c` is closed, or known at a cost at most one more.
pub open spec fn settled_around(
    g: Grid,
    known: Seq<Vec<bool>>,
    closed: Seq<Vec<bool>>,
    cost: Seq<Vec<usize>>,
    c: Point,
) -> bool {
    forall|q: Point|
        g.open_at(q) && #[trigger] adjacent(c, q) ==> entry(closed, q) || (entry(known, q) && entry(cost, q)
            <= entry(cost, c) + 1)
}

/// Every closed point but `pending` is settled around.
#[verifier::opaque]
pub open spec fn closed_settled(
    g: Grid,
    known: Seq<Vec<bool>>,
    closed: Seq<Vec<bool>>,
    cost: Seq<Vec<usize>>,
    pending: Point,
) -> bool {
    forall|c: Point|
        g.in_bounds(c) && #[trigger] entry(closed, c) && c != pending ==> settled_around(g, known, closed, cost, c)
}

/// The expanded list holds each closed point but the start, once.
#[verifier::opaque]
pub open spec fn expanded_list(g: Grid, start: Point, closed: Seq<Vec<bool>>, expanded: Seq<Point>) -> bool {
    &&& expanded.no_duplicates()
    &&& forall|i: int|
        0 <= i < expanded.len() ==> g.in_bounds(#[trigger] expanded[i]) && entry(closed, expanded[i])
            && expanded[i] != start
    &&& forall|p: Point| g.in_bounds(p) && #[trigger] entry(closed, p) && p != start ==> expanded.contains(p)
}

/// The state of an A* search; `pending` is the closed point under expansion,
/// or `dest` between expansions.
pub open spec fn astar_state(
    g: Grid,
    start: Point,
    dest: Point,
    known: Seq<Vec<bool>>,
    closed: Seq<Vec<bool>>,
    cost: Seq<Vec<usize>>,
    parent: Seq<Vec<Point>>,
    open: Seq<Point>,
    expanded: Seq<Point>,
    pending: Point,
) -> bool {
    &&& g.wf()
    &&& g.in_bounds(start)
    &&& g.in_bounds(dest)
    &&& g.width * g.height <= u32::MAX
    &&& is_matrix(known, g.width as int, g.height as int)
    &&& is_matrix(closed, g.width as int, g.height as int)
    &&& is_matrix(cost, g.width as int, g.height as int)
    &&& is_matrix(parent, g.width as int, g.height as int)
    &&& unset(closed) <= g.width * g.height
    &&& !entry(closed, dest)
    &&& forall|p: Point|
        g.in_bounds(p) && #[trigger] entry(known, p) ==> entry(cost, p) <= g.width * g.height - unset(closed)
    &&& parent_chain(g, start, known, cost, parent)
    &&& parents_closed(g, start, known, closed, parent)
    &&& open_list_ok(g, known, closed, open)
    &&& closed_optimal(g, start, closed, cost)
    &&& closed_settled(g, known, closed, cost, pending)
    &&& expanded_list(g, start, closed, expanded)
}

/// Along a walk from the start to a point not closed, some point is known,
/// not closed, and costs no more than its index.
proof fn lemma_first_open(
    g: Grid,
    start: Point,
    dest: Point,
    known: Seq<Vec<bool>>,
    closed: Seq<Vec<bool>>,
    cost: Seq<Vec<usize>>,
    parent: Seq<Vec<Point>>,
    open: Seq<Point>,
    expanded: Seq<Point>,
    w: Seq<Point>,
    j: int,
) -> (i: int)
    requires
        astar_state(g, start, dest, known, closed, cost, parent, open, expanded, dest),
        g.is_walk(w),
        w[0] == start,
        0 <= j < w.len(),
        !entry(closed, w[j]),
    ensures
        0 <= i <= j,
        g.in_bounds(w[i]),
        !entry(closed, w[i]),
        entry(known, w[i]),
        entry(cost, w[i]) <= i,
    decreases j,
{
    reveal(parent_chain);
    if j == 0 {
        0
    } else if !entry(closed, w[j - 1]) {
        lemma_first_open(g, start, dest, known, closed, cost, parent, open, expanded, w, j - 1)
    } else {
        let c = w[j - 1];
        if j - 1 > 0 {
            assert(g.open_at(w[j - 1]));
        }
        assert(g.in_bounds(c));
        lemma_walk_prefix(g, w, j);
        assert(g.is_route_to(start, c, w.subrange(0, j)));
        reveal(closed_optimal);
        reveal(closed_settled);
        assert(entry(cost, c) + 1 <= j);
        assert(settled_around(g, known, closed, cost, c));
        assert(adjacent(w[j - 1], w[j]) && g.open_at(w[j]));
        j
    }
}

/// The point of least priority on the open list costs no more than the
/// steps of any walk to it.
proof fn lemma_astar_pop_optimal(
    g: Grid,
    start: Point,
    dest: Point,
    known: Seq<Vec<bool>>,
    closed: Seq<Vec<bool>>,
    cost: Seq<Vec<usize>>,
    parent: Seq<Vec<Point>>,
    open: Seq<Point>,
    expanded: Seq<Point>,
    u: Point,
)
    requires
        astar_state(g, start, dest, known, closed, cost, parent, open, expanded, dest),
        open.contains(u),
        forall|i: int| 0 <= i < open.len() ==> f_score(cost, dest, u) <= f_score(cost, dest, #[trigger] open[i]),
    ensures
        forall|w: Seq<Point>| #[trigger] g.is_route_to(start, u, w) ==> entry(cost, u) + 1 <= w.len(),
{
    reveal(open_list_ok);
    assert forall|w: Seq<Point>| #[trigger] g.is_route_to(start, u, w) implies entry(cost, u) + 1 <= w.len() by {
        if entry(cost, u) + 1 > w.len() {
            let k = w.len() - 1;
            let ui = choose|i: int| 0 <= i < open.len() && open[i] == u;
            assert(!entry(closed, u));
            let i = lemma_first_open(g, start, dest, known, closed, cost, parent, open, expanded, w, k);
            let x = w[i];
            assert(open.contains(x));
            let xi = choose|xi: int| 0 <= xi < open.len() && open[xi] == x;
            assert(f_score(cost, dest, u) <= f_score(cost, dest, open[xi]));
            lemma_walk_manhattan(g, w, i, k);
        }
    }
}

/// Between two in-bounds points the Manhattan distance is below the number
/// of cells.
proof fn lemma_manhattan_small(g: Grid, a: Point, b: Point)
    requires
        g.in_bounds(a),
        g.in_bounds(b),
    ensures
        manhattan(a, b) < g.width * g.height,
{
    let w = g.width as int;
    let h = g.height as int;
    assert((w - 1) * (h - 1) >= 0) by (nonlinear_arith)
        requires
            w >= 1,
            h >= 1,
    ;
    assert(w * h == (w - 1) * (h - 1) + w + h - 1) by (nonlinear_arith);
}

/// Closing `u`, just taken off the open list with the least priority, keeps
/// the search state, with `u` pending expansion.
proof fn lemma_astar_close(
    g: Grid,
    start: Point,
    dest: Point,
    known: Seq<Vec<bool>>,
    c0: Seq<Vec<bool>>,
    cost: Seq<Vec<usize>>,
    parent: Seq<Vec<Point>>,
    o0: Seq<Point>,
    e0: Seq<Point>,
    k: int,
    u: Point,
    c1: Seq<Vec<bool>>,
    e1: Seq<Point>,
)
    requires
        astar_state(g, start, dest, known, c0, cost, parent, o0, e0, dest),
        0 <= k < o0.len(),
        o0[k] == u,
        u != dest,
        forall|w: Seq<Point>| #[trigger] g.is_route_to(start, u, w) ==> entry(cost, u) + 1 <= w.len(),
        unset(c1) + 1 == unset(c0),
        is_matrix(c1, g.width as int, g.height as int),
        forall|x: Point| g.in_bounds(x) ==> #[trigger] entry(c1, x) == (x == u || entry(c0, x)),
        e1 == if u == start {
            e0
        } else {
            e0.push(u)
        },
    ensures
        astar_state(g, start, dest, known, c1, cost, parent, o0.remove(k), e1, u),
        g.in_bounds(u),
        entry(known, u),
        entry(c1, u),
        entry(cost, u) + 1 <= g.width * g.height - unset(c1),
{
    reveal(open_list_ok);
    reveal(parents_closed);
    reveal(closed_optimal);
    reveal(closed_settled);
    reveal(expanded_list);
    let o1 = o0.remove(k);
    o0.remove_ensures(k);
    assert(g.in_bounds(u) && entry(known, u) && !entry(c0, u));
    assert forall|i: int| 0 <= i < o1.len() implies g.in_bounds(#[trigger] o1[i]) && entry(known, o1[i]) && !entry(
        c1,
        o1[i],
    ) by {
        if i < k {
            assert(o1[i] == o0[i]);
        } else {
            assert(o1[i] == o0[i + 1]);
        }
    }
    assert forall|i: int, j: int| 0 <= i < o1.len() && 0 <= j < o1.len() && i != j implies o1[i] != o1[j] by {
        let a = if i < k { i } else { i + 1 };
        let b = if j < k { j } else { j + 1 };
        assert(o1[i] == o0[a] && o1[j] == o0[b]);
    }
    assert forall|p: Point| g.in_bounds(p) && #[trigger] entry(known, p) && !entry(c1, p) implies o1.contains(p) by {
        let i = choose|i: int| 0 <= i < o0.len() && o0[i] == p;
        if i < k {
            assert(o1[i] == p);
        } else {
            assert(i != k);
            assert(o1[i - 1] == p);
        }
    }
    assert forall|c: Point, w: Seq<Point>|
        g.in_bounds(c) && entry(c1, c) && #[trigger] g.is_route_to(start, c, w) implies entry(cost, c) + 1
        <= w.len() by {
        if c != u {
            assert(entry(c0, c));
        }
    }
    assert forall|c: Point| g.in_bounds(c) && #[trigger] entry(c1, c) && c != u implies settled_around(
        g,
        known,
        c1,
        cost,
        c,
    ) by {
        assert(entry(c0, c));
        assert(settled_around(g, known, c0, cost, c));
        assert forall|q: Point| g.open_at(q) && #[trigger] adjacent(c, q) implies entry(c1, q) || (entry(known, q)
            && entry(cost, q) <= entry(cost, c) + 1) by {
        }
    }
    assert forall|i: int| 0 <= i < e1.len() implies g.in_bounds(#[trigger] e1[i]) && entry(c1, e1[i]) && e1[i]
        != start by {
        if i < e0.len() {
            assert(e1[i] == e0[i]);
        }
    }
    if u != start {
        assert forall|i: int, j: int| 0 <= i < e1.len() && 0 <= j < e1.len() && i != j implies e1[i] != e1[j] by {
            if i < e0.len() && j < e0.len() {
                assert(e1[i] == e0[i] && e1[j] == e0[j]);
            } else if i < e0.len() {
                assert(e1[i] == e0[i]);
                assert(entry(c0, e0[i]));
            } else if j < e0.len() {
                assert(e1[j] == e0[j]);
                assert(entry(c0, e0[j]));
            }
        }
    }
    assert forall|p: Point| g.in_bounds(p) && #[trigger] entry(c1, p) && p != start implies e1.contains(p) by {
        if p == u {
            assert(e1[e1.len() - 1] == u);
        } else {
            assert(entry(c0, p));
            let i = choose|i: int| 0 <= i < e0.len() && e0[i] == p;
            assert(e1[i] == p);
        }
    }
    assert(unset(c1) <= g.width * g.height);
    assert(!entry(c1, dest));
    assert forall|p: Point| g.in_bounds(p) && #[trigger] entry(known, p) implies entry(cost, p) <= g.width * g.height
        - unset(c1) by {
    }
    assert forall|p: Point| g.in_bounds(p) && #[trigger] entry(c1, p) implies entry(known, p) by {
        if p != u {
            assert(entry(c0, p));
        }
    }
    assert forall|p: Point| g.in_bounds(p) && #[trigger] entry(known, p) && p != start implies entry(
        c1,
        entry(parent, p),
    ) by {
        reveal(parent_chain);
        assert(entry(c0, entry(parent, p)));
        assert(g.in_bounds(entry(parent, p)));
    }
    assert(parents_closed(g, start, known, c1, parent));
    assert(open_list_ok(g, known, c1, o1));
    assert(closed_optimal(g, start, c1, cost));
    assert(closed_settled(g, known, c1, cost, u));
    assert(expanded_list(g, start, c1, e1));
}

/// Recording the cheaper way to `q` through the closed point `u` keeps the
/// search state.
proof fn lemma_astar_relax(
    g: Grid,
    start: Point,
    dest: Point,
    k0: Seq<Vec<bool>>,
    closed: Seq<Vec<bool>>,
    cost0: Seq<Vec<usize>>,
    p0: Seq<Vec<Point>>,
    o0: Seq<Point>,
    expanded: Seq<Point>,
    u: Point,
    q: Point,
    k1: Seq<Vec<bool>>,
    cost1: Seq<Vec<usize>>,
    p1: Seq<Vec<Point>>,
    o1: Seq<Point>,
)
    requires
        astar_state(g, start, dest, k0, closed, cost0, p0, o0, expanded, u),
        g.in_bounds(u),
        entry(closed, u),
        entry(cost0, u) + 1 <= g.width * g.height - unset(closed),
        g.open_at(q),
        adjacent(u, q),
        !entry(closed, q),
        !entry(k0, q) || entry(cost0, u) + 1 < entry(cost0, q),
        is_matrix(k1, g.width as int, g.height as int),
        is_matrix(cost1, g.width as int, g.height as int),
        is_matrix(p1, g.width as int, g.height as int),
        forall|x: Point| g.in_bounds(x) ==> #[trigger] entry(k1, x) == (x == q || entry(k0, x)),
        forall|x: Point|
            g.in_bounds(x) ==> #[trigger] entry(cost1, x) == if x == q {
                entry(cost0, u) + 1
            } else {
                entry(cost0, x) as int
            },
        forall|x: Point|
            g.in_bounds(x) ==> #[trigger] entry(p1, x) == if x == q {
                u
            } else {
                entry(p0, x)
            },
        o1 == if entry(k0, q) {
            o0
        } else {
            o0.push(q)
        },
    ensures
        astar_state(g, start, dest, k1, closed, cost1, p1, o1, expanded, u),
        entry(k1, q),
        entry(cost1, q) == entry(cost0, u) + 1,
        entry(cost1, u) == entry(cost0, u),
        forall|x: Point|
            g.in_bounds(x) && #[trigger] entry(k0, x) ==> entry(k1, x) && entry(cost1, x) <= entry(cost0, x),
{
    reveal(parent_chain);
    reveal(open_list_ok);
    reveal(parents_closed);
    reveal(closed_optimal);
    reveal(closed_settled);
    assert(entry(k0, u));
    assert forall|x: Point| g.in_bounds(x) && #[trigger] entry(k1, x) && x != start implies {
        let pp = entry(p1, x);
        &&& g.in_bounds(pp)
        &&& entry(k1, pp)
        &&& adjacent(pp, x)
        &&& g.open_at(x)
        &&& entry(cost1, x) == entry(cost1, pp) + 1
    } by {
        if x != q {
            let pp = entry(p0, x);
            assert(g.in_bounds(pp) && entry(k0, pp) && entry(closed, pp));
        }
    }
    assert(parent_chain(g, start, k1, cost1, p1));
    assert forall|x: Point| g.in_bounds(x) && #[trigger] entry(k1, x) && x != start implies entry(
        closed,
        entry(p1, x),
    ) by {
    }
    if !entry(k0, q) {
        assert forall|i: int| 0 <= i < o1.len() implies g.in_bounds(#[trigger] o1[i]) && entry(k1, o1[i]) && !entry(
            closed,
            o1[i],
        ) by {
            if i < o0.len() {
                assert(o1[i] == o0[i]);
            }
        }
        assert forall|i: int, j: int| 0 <= i < o1.len() && 0 <= j < o1.len() && i != j implies o1[i] != o1[j] by {
            if i < o0.len() && j < o0.len() {
                assert(o1[i] == o0[i] && o1[j] == o0[j]);
            } else if i < o0.len() {
                assert(o1[i] == o0[i] && entry(k0, o0[i]));
            } else if j < o0.len() {
                assert(o1[j] == o0[j] && entry(k0, o0[j]));
            }
        }
        assert forall|x: Point| g.in_bounds(x) && #[trigger] entry(k1, x) && !entry(closed, x) implies o1.contains(x) by {
            if x == q {
                assert(o1[o0.len() as int] == q);
            } else {
                let i = choose|i: int| 0 <= i < o0.len() && o0[i] == x;
                assert(o1[i] == x);
            }
        }
    }
    assert forall|c: Point, w: Seq<Point>|
        g.in_bounds(c) && entry(closed, c) && #[trigger] g.is_route_to(start, c, w) implies entry(cost1, c) + 1
        <= w.len() by {
    }
    assert forall|c: Point| g.in_bounds(c) && #[trigger] entry(closed, c) && c != u implies settled_around(
        g,
        k1,
        closed,
        cost1,
        c,
    ) by {
        assert(settled_around(g, k0, closed, cost0, c));
        assert forall|x: Point| g.open_at(x) && #[trigger] adjacent(c, x) implies entry(closed, x) || (entry(k1, x)
            && entry(cost1, x) <= entry(cost1, c) + 1) by {
        }
    }
}

/// Once every open neighbour of the pending point is settled, the state
/// holds with nothing pending.
proof fn lemma_astar_settle(
    g: Grid,
    start: Point,
    dest: Point,
    known: Seq<Vec<bool>>,
    closed: Seq<Vec<bool>>,
    cost: Seq<Vec<usize>>,
    parent: Seq<Vec<Point>>,
    open: Seq<Point>,
    expanded: Seq<Point>,
    u: Point,
)
    requires
        astar_state(g, start, dest, known, closed, cost, parent, open, expanded, u),
        g.in_bounds(u),
        forall|d: int|
            0 <= d < 4 ==> match #[trigger] g.neighbor_spec(u, d) {
                Some(q) => g.open_at(q) ==> entry(closed, q) || (entry(known, q) && entry(cost, q) <= entry(cost, u)
                    + 1),
                None => true,
            },
    ensures
        astar_state(g, start, dest, known, closed, cost, parent, open, expanded, dest),
{
    reveal(closed_settled);
    assert forall|q: Point| g.open_at(q) && #[trigger] adjacent(u, q) implies entry(closed, q) || (entry(known, q)
        && entry(cost, q) <= entry(cost, u) + 1) by {
        lemma_neighbor_cover(g, u, q);
        let d = direction_to(u, q);
        assert(match g.neighbor_spec(u, d) {
            Some(q) => g.open_at(q) ==> entry(closed, q) || (entry(known, q) && entry(cost, q) <= entry(cost, u) + 1),
            None => true,
        });
    }
    assert(settled_around(g, known, closed, cost, u));
}

/// When `dest` leaves the open list, every point with a walk from the start
/// whose length plus Manhattan distance to `dest` stays below the cost of
/// `dest` is closed already.
proof fn lemma_astar_closed_below(
    g: Grid,
    start: Point,
    dest: Point,
    known: Seq<Vec<bool>>,
    closed: Seq<Vec<bool>>,
    cost: Seq<Vec<usize>>,
    parent: Seq<Vec<Point>>,
    open: Seq<Point>,
    expanded: Seq<Point>,
    v: Seq<Point>,
)
    requires
        astar_state(g, start, dest, known, closed, cost, parent, open, expanded, dest),
        forall|i: int| 0 <= i < open.len() ==> f_score(cost, dest, dest) <= f_score(cost, dest, #[trigger] open[i]),
        g.is_walk(v),
        v[0] == start,
        v.len() - 1 + manhattan(v.last(), dest) < entry(cost, dest),
    ensures
        entry(closed, v.last()),
{
    reveal(open_list_ok);
    let k = v.len() - 1;
    if !entry(closed, v[k]) {
        let i = lemma_first_open(g, start, dest, known, closed, cost, parent, open, expanded, v, k);
        let x = v[i];
        assert(open.contains(x));
        let xi = choose|xi: int| 0 <= xi < open.len() && open[xi] == x;
        assert(f_score(cost, dest, dest) <= f_score(cost, dest, open[xi]));
        lemma_walk_manhattan(g, v, i, k);
        assert(manhattan(dest, dest) == 0);
    }
}

/// When the destination leaves the open list, the walk traced back from it is
/// a shortest route, and every point strictly inside it has been expanded.
proof fn lemma_astar_found(
    g: Grid,
    start: Point,
    dest: Point,
    known: Seq<Vec<bool>>,
    closed: Seq<Vec<bool>>,
    cost: Seq<Vec<usize>>,
    parent: Seq<Vec<Point>>,
    open: Seq<Point>,
    expanded: Seq<Point>,
    w: Seq<Point>,
)
    requires
        astar_state(g, start, dest, known, closed, cost, parent, open, expanded, dest),
        forall|v: Seq<Point>| #[trigger] g.is_route_to(start, dest, v) ==> entry(cost, dest) + 1 <= v.len(),
        forall|i: int| 0 <= i < open.len() ==> f_score(cost, dest, dest) <= f_score(cost, dest, #[trigger] open[i]),
        g.is_walk(w),
        w[0] == start,
        w.last() == dest,
        w.len() == entry(cost, dest) + 1,
        forall|i: int| 0 <= i < w.len() ==> entry(cost, #[trigger] w[i]) == i,
        forall|i: int| 0 <= i < w.len() ==> entry(known, #[trigger] w[i]),
        forall|i: int| 0 <= i < w.len() - 1 ==> w[i] == entry(parent, #[trigger] w[i + 1]),
    ensures
        g.shortest_route_to_inner(start, dest, inner(w)),
        g.reachable_to(start, dest),
        inner(w).no_duplicates(),
        inner(w).len() < u32::MAX,
        forall|i: int| 0 <= i < inner(w).len() ==> g.in_bounds(#[trigger] inner(w)[i]),
        forall|i: int| 0 <= i < inner(w).len() ==> expanded.contains(#[trigger] inner(w)[i]),
        !expanded.contains(start),
        !expanded.contains(dest),
        expanded.no_duplicates(),
        forall|i: int| 0 <= i < expanded.len() ==> g.open_at(#[trigger] expanded[i]),
        forall|p: Point, v: Seq<Point>|
            #[trigger] g.is_route_to(start, p, v) && v.len() - 1 + manhattan(p, dest) < inner(w).len() + 1 ==> p
                == start || expanded.contains(p),
{
    reveal(parent_chain);
    reveal(parents_closed);
    reveal(expanded_list);
    assert forall|p: Point, v: Seq<Point>|
        #[trigger] g.is_route_to(start, p, v) && v.len() - 1 + manhattan(p, dest) < inner(w).len() + 1 implies p
        == start || expanded.contains(p) by {
        if start != dest {
            assert(w.len() >= 2);
            lemma_astar_closed_below(g, start, dest, known, closed, cost, parent, open, expanded, v);
            if v.last() != start {
                assert(g.open_at(v[v.len() - 1]));
            }
        } else {
            assert(w.len() == 1);
            assert(v.len() == 1);
        }
    }
    assert(g.is_route_to(start, dest, w));
    lemma_depth_inner(g, cost, w);
    let n = inner(w);
    assert forall|i: int| 0 <= i < n.len() implies expanded.contains(#[trigger] n[i]) by {
        assert(n[i] == w[i + 1]);
        let j = i + 1;
        assert(w[j] == entry(parent, w[j + 1]));
        assert(entry(known, w[j + 1]));
        assert(w[j + 1] != start) by {
            assert(w[0] == start);
        }
        assert(g.open_at(w[j + 1]));
        assert(g.open_at(w[j]));
        assert(entry(closed, w[j]));
        assert(w[j] != start) by {
            assert(w[0] == start);
        }
    }
    assert forall|i: int| 0 <= i < expanded.len() implies g.open_at(#[trigger] expanded[i]) by {
        assert(entry(closed, expanded[i]));
    }
    assert(!expanded.contains(dest)) by {
        if expanded.contains(dest) {
            let i = choose|i: int| 0 <= i < expanded.len() && expanded[i] == dest;
            assert(entry(closed, expanded[i]));
        }
    }
    lemma_manhattan_small(g, start, dest);
}

/// With the open list empty, `dest` cannot be reached.
proof fn lemma_astar_exhausted(
    g: Grid,
    start: Point,
    dest: Point,
    known: Seq<Vec<bool>>,
    closed: Seq<Vec<bool>>,
    cost: Seq<Vec<usize>>,
    parent: Seq<Vec<Point>>,
    open: Seq<Point>,
    expanded: Seq<Point>,
)
    requires
        astar_state(g, start, dest, known, closed, cost, parent, open, expanded, dest),
        open.len() == 0,
    ensures
        !g.reachable_to(start, dest),
{
    reveal(parent_chain);
    reveal(open_list_ok);
    reveal(closed_settled);
    assert forall|p: Point| g.in_bounds(p) && #[trigger] entry(known, p) implies entry(closed, p) by {
        if !entry(closed, p) {
            assert(open.contains(p));
        }
    }
    assert forall|p: Point, q: Point|
        g.in_bounds(p) && #[trigger] entry(closed, p) && g.open_at(q) && #[trigger] adjacent(p, q) implies entry(
        closed,
        q,
    ) by {
        assert(settled_around(g, known, closed, cost, p));
    }
    assert forall|v: Seq<Point>| !g.is_route_to(start, dest, v) by {
        if g.is_route_to(start, dest, v) {
            lemma_walk_closed(g, start, closed, v);
        }
    }
}

impl Grid {
    /// Manhattan distance between two points.
    fn heuristic(start: Point, goal: Point) -> (r: usize)
        requires
            manhattan(start, goal) <= usize::MAX,
        ensures
            r == manhattan(start, goal),
    {
        let dx = if start.x >= goal.x {
            start.x - goal.x
        } else {
            goal.x - start.x
        };
        let dy = if start.y >= goal.y {
            start.y - goal.y
        } else {
            goal.y - start.y
        };
        dx + dy
    }

    /// The index on the open list of the point of least priority; among equal
    /// priorities the least point (by `x`, then `y`).
    fn min_index(&self, open: &Vec<Point>, cost: &Vec<Vec<usize>>, dest: Point) -> (k: usize)
        requires
            self.wf(),
            self.in_bounds(dest),
            self.width * self.height <= u32::MAX,
            open@.len() > 0,
            is_matrix(cost@, self.width as int, self.height as int),
            forall|i: int|
                0 <= i < open@.len() ==> self.in_bounds(#[trigger] open@[i]) && entry(cost@, open@[i])
                    <= self.width * self.height,
        ensures
            k < open@.len(),
            forall|i: int|
                0 <= i < open@.len() ==> f_score(cost@, dest, open@[k as int]) <= f_score(
                    cost@,
                    dest,
                    #[trigger] open@[i],
                ),
    {
        let mut best: usize = 0;
        let p0 = open[0];
        proof {
            lemma_manhattan_small(*self, p0, dest);
        }
        let mut best_f: u64 = cost[p0.y][p0.x] as u64 + Self::heuristic(p0, dest) as u64;
        let mut i: usize = 1;
        while i < open.len()
            invariant
                self.wf(),
                self.in_bounds(dest),
                self.width * self.height <= u32::MAX,
                is_matrix(cost@, self.width as int, self.height as int),
                forall|j: int|
                    0 <= j < open@.len() ==> self.in_bounds(#[trigger] open@[j]) && entry(cost@, open@[j])
                        <= self.width * self.height,
                1 <= i <= open@.len(),
                best < i,
                best_f == f_score(cost@, dest, open@[best as int]),
                forall|j: int| 0 <= j < i ==> best_f <= f_score(cost@, dest, #[trigger] open@[j]),
            decreases open@.len() - i,
        {
            let p = open[i];
            proof {
                lemma_manhattan_small(*self, p, dest);
            }
            let f: u64 = cost[p.y][p.x] as u64 + Self::heuristic(p, dest) as u64;
            let b = open[best];
            if f < best_f || (f == best_f && (p.x < b.x || (p.x == b.x && p.y < b.y))) {
                best = i;
                best_f = f;
            }
            i = i + 1;
        }
        best
    }

    /// Settles the neighbours of the closed point `u`, in the order up, right,
    /// down, left: each open one that is not closed gets `u` as parent when
    /// it is new or reached more cheaply through `u`; a new one joins the open
    /// list.
    fn astar_expand(
        &self,
        start: Point,
        dest: Point,
        u: Point,
        known: &mut Vec<Vec<bool>>,
        closed: &Vec<Vec<bool>>,
        cost: &mut Vec<Vec<usize>>,
        parent: &mut Vec<Vec<Point>>,
        open: &mut Vec<Point>,
        Ghost(expanded): Ghost<Seq<Point>>,
    )
        requires
            astar_state(*self, start, dest, old(known)@, closed@, old(cost)@, old(parent)@, old(open)@, expanded, u),
            self.in_bounds(u),
            entry(closed@, u),
            entry(old(cost)@, u) + 1 <= self.width * self.height - unset(closed@),
        ensures
            astar_state(*self, start, dest, final(known)@, closed@, final(cost)@, final(parent)@, final(open)@, expanded, dest),
    {
        let ghost g = *self;
        let cu = cost[u.y][u.x];
        let mut d: usize = 0;
        while d < 4
            invariant
                *self == g,
                d <= 4,
                g.in_bounds(u),
                entry(closed@, u),
                cu == entry(cost@, u),
                cu + 1 <= g.width * g.height - unset(closed@),
                astar_state(g, start, dest, known@, closed@, cost@, parent@, open@, expanded, u),
                forall|e: int|
                    0 <= e < d ==> match #[trigger] g.neighbor_spec(u, e) {
                        Some(q) => g.open_at(q) ==> entry(closed@, q) || (entry(known@, q) && entry(cost@, q)
                            <= cu + 1),
                        None => true,
                    },
            decreases 4 - d,
        {
            proof {
                lemma_neighbor(g, u, d as int);
            }
            let ghost kb = known@;
            let ghost cb = cost@;
            if let Some(q) = self.neighbor(u, d) {
                let c = self.cells[q.y][q.x];
                if (c == CellType::Blank || c == CellType::Destination) && !closed[q.y][q.x] {
                    let ghost s0 = (known@, cost@, parent@, open@);
                    let tentative = cu + 1;
                    if !known[q.y][q.x] {
                        set_entry(known, q, true);
                        set_entry(cost, q, tentative);
                        set_entry(parent, q, u);
                        open.push(q);
                        proof {
                            lemma_astar_relax(g, start, dest, s0.0, closed@, s0.1, s0.2, s0.3, expanded, u, q,
                                known@, cost@, parent@, open@);
                        }
                    } else if tentative < cost[q.y][q.x] {
                        set_entry(cost, q, tentative);
                        set_entry(parent, q, u);
                        proof {
                            lemma_astar_relax(g, start, dest, s0.0, closed@, s0.1, s0.2, s0.3, expanded, u, q,
                                known@, cost@, parent@, open@);
                        }
                    }
                }
            }
            proof {
                assert forall|e: int| 0 <= e < d + 1 implies match #[trigger] g.neighbor_spec(u, e) {
                    Some(q) => g.open_at(q) ==> entry(closed@, q) || (entry(known@, q) && entry(cost@, q) <= cu + 1),
                    None => true,
                } by {
                    lemma_neighbor(g, u, e);
                    if let Some(q) = g.neighbor_spec(u, e) {
                        if g.open_at(q) && !entry(closed@, q) {
                            if e < d {
                                assert(entry(kb, q) && entry(cb, q) <= cu + 1);
                            }
                        }
                    }
                }
            }
            d = d + 1;
        }
        proof {
            lemma_astar_settle(g, start, dest, known@, closed@, cost@, parent@, open@, expanded, u);
        }
    }

    /// A* search from `src` to the point `dest` over blank and destination
    /// cells, with the Manhattan distance to `dest` as heuristic. The open
    /// point of least cost plus heuristic is expanded first, ties going to the
    /// least point; a closed point is never reopened.
    ///
    /// Returns the points strictly between the two ends of a shortest route,
    /// in order, with `Visited(1)`, `Visited(2)`, ... written into their cells,
    /// and the points the search expanded, in order, without `src` and `dest`:
    /// among them every point that some walk from `src` reaches in fewer
    /// steps, plus its Manhattan distance to `dest`, than the route has.
    /// Returns `None`, and leaves the grid as it was, when no route exists.
    pub fn a_star(&mut self, src: Point, dest: Point) -> (r: Option<(Vec<Point>, Vec<Point>)>)
        requires
            old(self).wf(),
            old(self).width * old(self).height <= u32::MAX,
        ensures
            final(self).wf(),
            r is None <==> !old(self).reachable_to(src, dest),
            r is None ==> *final(self) == *old(self),
            r matches Some((path, visited)) ==> {
                &&& old(self).shortest_route_to_inner(src, dest, path@)
                &&& final(self).marks(*old(self), path@)
                &&& visited@.no_duplicates()
                &&& !visited@.contains(src)
                &&& !visited@.contains(dest)
                &&& forall|i: int| 0 <= i < path@.len() ==> visited@.contains(#[trigger] path@[i])
                &&& forall|i: int| 0 <= i < visited@.len() ==> old(self).open_at(#[trigger] visited@[i])
                &&& forall|p: Point, v: Seq<Point>|
                    #[trigger] old(self).is_route_to(src, p, v) && v.len() - 1 + manhattan(p, dest) < path@.len() + 1
                        ==> p == src || visited@.contains(p)
            },
    {
        let ghost g = *self;
        if !self.is_within_bounds(src) || !self.is_within_bounds(dest) {
            return None;
        }
        let width = self.width;
        let height = self.height;
        let mut known = new_matrix(width, height, false);
        let mut closed = new_matrix(width, height, false);
        let mut cost = new_matrix(width, height, 0usize);
        let mut parent = new_matrix(width, height, src);
        proof {
            lemma_unset_all_false(closed@, width as int, height as int);
        }
        let ghost k0 = known@;
        set_entry(&mut known, src, true);
        let mut open: Vec<Point> = Vec::new();
        open.push(src);
        let mut expanded: Vec<Point> = Vec::new();
        proof {
            reveal(parent_chain);
            reveal(open_list_ok);
            reveal(parents_closed);
            reveal(closed_optimal);
            reveal(closed_settled);
            reveal(expanded_list);
            assert forall|x: Point| g.in_bounds(x) && #[trigger] entry(known@, x) implies x == src by {
                if x != src {
                    assert(entry(k0, x) == entry(known@, x));
                }
            }
            assert(open@[0] == src);
            assert(open@.contains(src));
        }
        while open.len() > 0
            invariant
                *self == g,
                g == *old(self),
                width == g.width,
                height == g.height,
                astar_state(g, src, dest, known@, closed@, cost@, parent@, open@, expanded@, dest),
            decreases unset(closed@),
        {
            proof {
                reveal(open_list_ok);
            }
            let k = self.min_index(&open, &cost, dest);
            let ghost o0 = open@;
            let u = open.remove(k);
            proof {
                assert(o0[k as int] == u);
                assert(o0.contains(u));
                lemma_astar_pop_optimal(g, src, dest, known@, closed@, cost@, parent@, o0, expanded@, u);
            }
            if u == dest {
                let (path, Ghost(w)) = self.construct_path(&parent, &cost, Ghost(known@), src, dest);
                proof {
                    lemma_astar_found(g, src, dest, known@, closed@, cost@, parent@, o0, expanded@, w);
                }
                self.mark_path(&path);
                return Some((path, expanded));
            }
            let ghost c0 = closed@;
            let ghost e0 = expanded@;
            proof {
                assert(!entry(closed@, u));
            }
            set_entry(&mut closed, u, true);
            if u != src {
                expanded.push(u);
            }
            proof {
                lemma_unset_update(c0, closed@, u);
                lemma_astar_close(g, src, dest, known@, c0, cost@, parent@, o0, e0, k as int, u, closed@, expanded@);
            }
            self.astar_expand(src, dest, u, &mut known, &closed, &mut cost, &mut parent, &mut open, Ghost(expanded@));
        }
        proof {
            lemma_astar_exhausted(g, src, dest, known@, closed@, cost@, parent@, open@, expanded@);
        }
        None
    }

}

} // verus!
