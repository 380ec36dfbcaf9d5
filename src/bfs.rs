use vstd::prelude::*;
use crate::grid::{
    adjacent, direction_to, inner, lemma_neighbor, lemma_neighbor_cover, lemma_walk_prefix, CellType,
    Grid, Point,
};
use crate::matrix::{
    entry, is_matrix, lemma_unset_all_false, lemma_unset_update, new_matrix, set_entry, unset,
};
use crate::trace::{lemma_depth_inner, parent_chain};

verus! {

/// Every open neighbour of `u` has been reached, at most one step further
/// from the start than `u`, and `u` is no destination.
pub open spec fn expanded(g: Grid, reached: Seq<Vec<bool>>, dist: Seq<Vec<usize>>, u: Point) -> bool {
    &&& g.cell(u) != CellType::Destination
    &&& forall|q: Point|
        g.open_at(q) && adjacent(u, q) ==> #[trigger] entry(reached, q) && entry(dist, q) <= entry(
            dist,
            u,
        ) + 1
}

/// The neighbour of `u` in direction `d`, if there is one and it is open,
/// is reached, no further than `bound`.
pub open spec fn neighbor_reached(
    g: Grid,
    reached: Seq<Vec<bool>>,
    dist: Seq<Vec<usize>>,
    u: Point,
    d: int,
    bound: int,
) -> bool {
    match g.neighbor_spec(u, d) {
        Some(q) => g.open_at(q) ==> entry(reached, q) && entry(dist, q) <= bound,
        None => true,
    }
}

/// If every reached point closer than `bound` is expanded, a walk from the
/// start of at most `bound` steps ends at a reached point no further than its
/// own length.
pub proof fn lemma_walk_reached(
    g: Grid,
    start: Point,
    reached: Seq<Vec<bool>>,
    dist: Seq<Vec<usize>>,
    bound: int,
    w: Seq<Point>,
)
    requires
        g.is_walk(w),
        w[0] == start,
        w.len() - 1 <= bound,
        entry(reached, start),
        entry(dist, start) == 0,
        forall|p: Point|
            g.in_bounds(p) && #[trigger] entry(reached, p) && entry(dist, p) < bound ==> expanded(
                g,
                reached,
                dist,
                p,
            ),
    ensures
        entry(reached, w.last()),
        entry(dist, w.last()) <= w.len() - 1,
    decreases w.len(),
{
    if w.len() > 1 {
        let n = w.len() as int;
        let w1 = w.subrange(0, n - 1);
        lemma_walk_prefix(g, w, n - 1);
        lemma_walk_reached(g, start, reached, dist, bound, w1);
        let u = w[n - 2];
        assert(w1.last() == u);
        if n - 2 > 0 {
            assert(g.open_at(w[n - 2]));
        }
        assert(g.in_bounds(u));
        assert(expanded(g, reached, dist, u));
        assert(adjacent(w[n - 2], w[n - 1]) && g.open_at(w[n - 1]));
    } else {
        assert(w.last() == start);
    }
}

/// The state of a breadth-first search: `order` lists the reached points in
/// the order they were reached, with distances that never decrease; those
/// before `head` are expanded.
pub open spec fn bfs_state(
    g: Grid,
    start: Point,
    reached: Seq<Vec<bool>>,
    dist: Seq<Vec<usize>>,
    parent: Seq<Vec<Point>>,
    order: Seq<Point>,
    head: int,
) -> bool {
    &&& g.wf()
    &&& g.in_bounds(start)
    &&& g.cell(start) != CellType::Destination
    &&& g.width * g.height <= u32::MAX
    &&& is_matrix(reached, g.width as int, g.height as int)
    &&& is_matrix(dist, g.width as int, g.height as int)
    &&& is_matrix(parent, g.width as int, g.height as int)
    &&& order.len() + unset(reached) == g.width * g.height
    &&& 1 <= order.len()
    &&& 0 <= head <= order.len()
    &&& order[0] == start
    &&& listed(g, reached, dist, order)
    &&& parent_chain(g, start, reached, dist, parent)
    &&& ascending(dist, order)
    &&& expanded_before(g, reached, dist, order, head)
}

/// Each listed point is in bounds and reached; each reached point is
/// listed, at a distance below the length of the list.
#[verifier::opaque]
pub open spec fn listed(g: Grid, reached: Seq<Vec<bool>>, dist: Seq<Vec<usize>>, order: Seq<Point>) -> bool {
    &&& forall|i: int| 0 <= i < order.len() ==> g.in_bounds(#[trigger] order[i]) && entry(reached, order[i])
    &&& forall|p: Point|
        g.in_bounds(p) && #[trigger] entry(reached, p) ==> order.contains(p) && entry(dist, p) < order.len()
}

/// Distances never decrease along the list.
#[verifier::opaque]
pub open spec fn ascending(dist: Seq<Vec<usize>>, order: Seq<Point>) -> bool {
    forall|i: int, j: int|
        0 <= i <= j < order.len() ==> entry(dist, #[trigger] order[i]) <= entry(dist, #[trigger] order[j])
}

/// The points listed before `head` are expanded.
#[verifier::opaque]
pub open spec fn expanded_before(
    g: Grid,
    reached: Seq<Vec<bool>>,
    dist: Seq<Vec<usize>>,
    order: Seq<Point>,
    head: int,
) -> bool {
    forall|i: int| 0 <= i < head ==> expanded(g, reached, dist, #[trigger] order[i])
}

/// Reaching the open neighbour `q` of the point `u` under expansion keeps
/// the search state.
proof fn lemma_bfs_reach_one(
    g: Grid,
    start: Point,
    r0: Seq<Vec<bool>>,
    d0: Seq<Vec<usize>>,
    p0: Seq<Vec<Point>>,
    o0: Seq<Point>,
    head: int,
    u: Point,
    q: Point,
    r1: Seq<Vec<bool>>,
    d1: Seq<Vec<usize>>,
    p1: Seq<Vec<Point>>,
    o1: Seq<Point>,
)
    requires
        bfs_state(g, start, r0, d0, p0, o0, head),
        head < o0.len(),
        u == o0[head],
        forall|p: Point| g.in_bounds(p) && #[trigger] entry(r0, p) ==> entry(d0, p) <= entry(d0, u) + 1,
        g.open_at(q),
        adjacent(u, q),
        !entry(r0, q),
        unset(r1) + 1 == unset(r0),
        is_matrix(r1, g.width as int, g.height as int),
        is_matrix(d1, g.width as int, g.height as int),
        is_matrix(p1, g.width as int, g.height as int),
        forall|p: Point| g.in_bounds(p) ==> #[trigger] entry(r1, p) == (p == q || entry(r0, p)),
        forall|p: Point|
            g.in_bounds(p) ==> #[trigger] entry(d1, p) == if p == q {
                entry(d0, u) + 1
            } else {
                entry(d0, p) as int
            },
        forall|p: Point|
            g.in_bounds(p) ==> #[trigger] entry(p1, p) == if p == q {
                u
            } else {
                entry(p0, p)
            },
        o1 == o0.push(q),
    ensures
        bfs_state(g, start, r1, d1, p1, o1, head),
        forall|p: Point| g.in_bounds(p) && #[trigger] entry(r1, p) ==> entry(d1, p) <= entry(d0, u) + 1,
        forall|p: Point|
            g.in_bounds(p) && entry(r0, p) ==> #[trigger] entry(r1, p) && entry(d1, p) == entry(d0, p),
        entry(r1, q),
        entry(d1, q) == entry(d0, u) + 1,
{
    reveal(listed);
    reveal(ascending);
    reveal(expanded_before);
    reveal(parent_chain);
    assert(g.in_bounds(u) && entry(r0, u));
    assert forall|i: int| 0 <= i < o1.len() implies g.in_bounds(#[trigger] o1[i]) && entry(r1, o1[i]) by {
        if i < o0.len() {
            assert(o1[i] == o0[i]);
        }
    }
    assert forall|p: Point| g.in_bounds(p) && #[trigger] entry(r1, p) implies o1.contains(p) && entry(d1, p)
        < o1.len() by {
        if p == q {
            assert(o1[o0.len() as int] == q);
        } else {
            let i = choose|i: int| 0 <= i < o0.len() && o0[i] == p;
            assert(o1[i] == p);
        }
    }
    assert forall|p: Point| g.in_bounds(p) && #[trigger] entry(r1, p) && p != start implies {
        let pp = entry(p1, p);
        &&& g.in_bounds(pp)
        &&& entry(r1, pp)
        &&& adjacent(pp, p)
        &&& g.open_at(p)
        &&& entry(d1, p) == entry(d1, pp) + 1
    } by {
        if p != q {
            let pp = entry(p0, p);
            assert(g.in_bounds(pp) && entry(r0, pp));
        }
    }
    assert(parent_chain(g, start, r1, d1, p1));
    assert forall|i: int, j: int| 0 <= i <= j < o1.len() implies entry(d1, #[trigger] o1[i]) <= entry(
        d1,
        #[trigger] o1[j],
    ) by {
        assert(g.in_bounds(o1[i]) && entry(r1, o1[i]));
        if j < o0.len() {
            assert(o1[i] == o0[i] && o1[j] == o0[j]);
            assert(entry(r0, o0[i]) && entry(r0, o0[j]));
            assert(entry(d0, o0[i]) <= entry(d0, o0[j]));
        } else if i < o0.len() {
            assert(o1[i] == o0[i]);
            assert(entry(r0, o0[i]));
        }
    }
    assert forall|i: int| 0 <= i < head implies expanded(g, r1, d1, #[trigger] o1[i]) by {
        assert(o1[i] == o0[i]);
        assert(expanded(g, r0, d0, o0[i]));
        assert(entry(r0, o0[i]));
        assert forall|x: Point| g.open_at(x) && adjacent(o1[i], x) implies #[trigger] entry(r1, x) && entry(d1, x)
            <= entry(d1, o1[i]) + 1 by {
            assert(entry(r0, x));
        }
    }
}

/// Once every open neighbour of the point at `head` is reached, one step
/// further at most, the point is expanded and `head` moves on.
proof fn lemma_bfs_advance(
    g: Grid,
    start: Point,
    reached: Seq<Vec<bool>>,
    dist: Seq<Vec<usize>>,
    parent: Seq<Vec<Point>>,
    order: Seq<Point>,
    head: int,
)
    requires
        bfs_state(g, start, reached, dist, parent, order, head),
        head < order.len(),
        g.cell(order[head]) != CellType::Destination,
        forall|p: Point|
            g.in_bounds(p) && #[trigger] entry(reached, p) ==> entry(dist, p) <= entry(dist, order[head]) + 1,
        forall|d: int|
            -1 < d <= 3 ==> #[trigger] neighbor_reached(g, reached, dist, order[head], d, entry(dist, order[head]) + 1),
    ensures
        bfs_state(g, start, reached, dist, parent, order, head + 1),
        head + 1 < order.len() ==> forall|p: Point|
            g.in_bounds(p) && #[trigger] entry(reached, p) ==> entry(dist, p) <= entry(dist, order[head + 1]) + 1,
{
    reveal(listed);
    reveal(ascending);
    reveal(expanded_before);
    let u = order[head];
    let du = entry(dist, u);
    assert(g.in_bounds(u));
    assert forall|q: Point| g.open_at(q) && adjacent(u, q) implies #[trigger] entry(reached, q) && entry(dist, q)
        <= du + 1 by {
        lemma_neighbor_cover(g, u, q);
        assert(neighbor_reached(g, reached, dist, u, direction_to(u, q), du + 1));
    }
    assert(expanded(g, reached, dist, u));
    assert forall|i: int| 0 <= i < head + 1 implies expanded(g, reached, dist, #[trigger] order[i]) by {
    }
    if head + 1 < order.len() {
        assert(entry(dist, order[head]) <= entry(dist, order[head + 1]));
    }
}

/// When the point under expansion is a destination, the walk traced back
/// from it is a shortest route.
proof fn lemma_bfs_found(
    g: Grid,
    start: Point,
    reached: Seq<Vec<bool>>,
    dist: Seq<Vec<usize>>,
    parent: Seq<Vec<Point>>,
    order: Seq<Point>,
    head: int,
    w: Seq<Point>,
)
    requires
        bfs_state(g, start, reached, dist, parent, order, head),
        head < order.len(),
        g.cell(order[head]) == CellType::Destination,
        g.is_walk(w),
        w[0] == start,
        w.last() == order[head],
        w.len() == entry(dist, order[head]) + 1,
        forall|i: int| 0 <= i < w.len() ==> entry(dist, #[trigger] w[i]) == i,
    ensures
        g.shortest_route_inner(start, inner(w)),
        inner(w).no_duplicates(),
        inner(w).len() < u32::MAX,
        forall|i: int| 0 <= i < inner(w).len() ==> g.in_bounds(#[trigger] inner(w)[i]),
{
    reveal(parent_chain);
    reveal(listed);
    let u = order[head];
    let du = entry(dist, u);
    assert(g.in_bounds(u) && entry(reached, u));
    lemma_bfs_closer_expanded(g, start, reached, dist, parent, order, head);
    assert forall|v: Seq<Point>| g.is_route(start, v) implies w.len() <= v.len() by {
        if v.len() < w.len() {
            lemma_walk_reached(g, start, reached, dist, du as int, v);
            let e = v.last();
            if v.len() > 1 {
                assert(g.open_at(v[v.len() - 1]));
            }
            assert(g.in_bounds(e));
            assert(expanded(g, reached, dist, e));
        }
    }
    assert(g.is_route(start, w));
    lemma_depth_inner(g, dist, w);
    assert(du < order.len());
}

/// Every reached point closer than the point under expansion is expanded.
proof fn lemma_bfs_closer_expanded(
    g: Grid,
    start: Point,
    reached: Seq<Vec<bool>>,
    dist: Seq<Vec<usize>>,
    parent: Seq<Vec<Point>>,
    order: Seq<Point>,
    head: int,
)
    requires
        bfs_state(g, start, reached, dist, parent, order, head),
        head < order.len(),
    ensures
        forall|p: Point|
            g.in_bounds(p) && #[trigger] entry(reached, p) && entry(dist, p) < entry(dist, order[head])
                ==> expanded(g, reached, dist, p),
{
    reveal(listed);
    reveal(ascending);
    reveal(expanded_before);
    assert forall|p: Point|
        g.in_bounds(p) && #[trigger] entry(reached, p) && entry(dist, p) < entry(dist, order[head])
            implies expanded(g, reached, dist, p) by {
        let i = choose|i: int| 0 <= i < order.len() && order[i] == p;
        if i >= head {
            assert(entry(dist, order[head]) <= entry(dist, order[i]));
        }
    }
}

/// When every reached point is expanded, no destination can be reached.
proof fn lemma_bfs_exhausted(
    g: Grid,
    start: Point,
    reached: Seq<Vec<bool>>,
    dist: Seq<Vec<usize>>,
    parent: Seq<Vec<Point>>,
    order: Seq<Point>,
)
    requires
        bfs_state(g, start, reached, dist, parent, order, order.len() as int),
    ensures
        !g.reachable(start),
{
    reveal(parent_chain);
    reveal(listed);
    reveal(expanded_before);
    assert forall|v: Seq<Point>| !g.is_route(start, v) by {
        if g.is_route(start, v) {
            assert forall|p: Point| g.in_bounds(p) && #[trigger] entry(reached, p) && entry(dist, p) < v.len()
                implies expanded(g, reached, dist, p) by {
                let i = choose|i: int| 0 <= i < order.len() && order[i] == p;
            }
            lemma_walk_reached(g, start, reached, dist, v.len() as int, v);
            let e = v.last();
            if v.len() > 1 {
                assert(g.open_at(v[v.len() - 1]));
            }
            assert(g.in_bounds(e));
            assert(expanded(g, reached, dist, e));
        }
    }
}

impl Grid {
    /// Expands `u`, the point at `head` in `order`: reaches each open
    /// neighbour not reached yet, in the order left, down, right, up.
    fn bfs_expand(
        &self,
        start_point: Point,
        u: Point,
        head: usize,
        reached: &mut Vec<Vec<bool>>,
        dist: &mut Vec<Vec<usize>>,
        parent: &mut Vec<Vec<Point>>,
        order: &mut Vec<Point>,
    )
        requires
            bfs_state(*self, start_point, old(reached)@, old(dist)@, old(parent)@, old(order)@, head as int),
            head < old(order)@.len(),
            u == old(order)@[head as int],
            self.cell(u) != CellType::Destination,
            forall|p: Point|
                self.in_bounds(p) && #[trigger] entry(old(reached)@, p) ==> entry(old(dist)@, p)
                    <= entry(old(dist)@, u) + 1,
        ensures
            bfs_state(*self, start_point, final(reached)@, final(dist)@, final(parent)@, final(order)@, head + 1),
            head + 1 < final(order)@.len() ==> forall|p: Point|
                self.in_bounds(p) && #[trigger] entry(final(reached)@, p) ==> entry(final(dist)@, p)
                    <= entry(final(dist)@, final(order)@[head + 1]) + 1,
    {
        let ghost g = *self;
        let ghost du = entry(dist@, u);
        proof {
            reveal(listed);
        }
        let mut k: usize = 0;
        while k < 4
            invariant
                *self == g,
                k <= 4,
                u == order@[head as int],
                head < order@.len(),
                du == entry(dist@, u),
                du < order@.len(),
                g.in_bounds(u),
                g.cell(u) != CellType::Destination,
                bfs_state(g, start_point, reached@, dist@, parent@, order@, head as int),
                forall|p: Point| g.in_bounds(p) && #[trigger] entry(reached@, p) ==> entry(dist@, p) <= du + 1,
                forall|d: int| 3 - k < d <= 3 ==> #[trigger] neighbor_reached(g, reached@, dist@, u, d, du + 1),
            decreases 4 - k,
        {
            let dir = 3 - k;
            let ghost rb = reached@;
            let ghost db = dist@;
            proof {
                lemma_neighbor(g, u, dir as int);
            }
            if let Some(q) = self.neighbor(u, dir) {
                let c = self.cells[q.y][q.x];
                if !reached[q.y][q.x] && (c == CellType::Blank || c == CellType::Destination) {
                    let ghost s0 = (reached@, dist@, parent@, order@);
                    let du_exec = dist[u.y][u.x];
                    set_entry(reached, q, true);
                    set_entry(dist, q, du_exec + 1);
                    set_entry(parent, q, u);
                    order.push(q);
                    proof {
                        lemma_unset_update(s0.0, reached@, q);
                        lemma_bfs_reach_one(g, start_point, s0.0, s0.1, s0.2, s0.3, head as int, u, q,
                            reached@, dist@, parent@, order@);
                    }
                }
            }
            proof {
                assert forall|d: int| 3 - (k + 1) < d <= 3 implies #[trigger] neighbor_reached(
                    g,
                    reached@,
                    dist@,
                    u,
                    d,
                    du + 1,
                ) by {
                    lemma_neighbor(g, u, d);
                    if d != dir {
                        assert(neighbor_reached(g, rb, db, u, d, du + 1));
                        if let Some(q) = g.neighbor_spec(u, d) {
                            if g.open_at(q) {
                                assert(entry(rb, q));
                                assert(entry(reached@, q));
                            }
                        }
                    } else {
                        if let Some(q) = g.neighbor_spec(u, d) {
                            if g.open_at(q) {
                                assert(entry(reached@, q));
                            }
                        }
                    }
                }
            }
            k = k + 1;
        }
        proof {
            lemma_bfs_advance(g, start_point, reached@, dist@, parent@, order@, head as int);
        }
    }

    /// Breadth-first search from `start_point` to the nearest destination
    /// cell, over blank and destination cells, visiting neighbours in the
    /// order left, down, right, up.
    ///
    /// Returns the points strictly between the two ends of a shortest route,
    /// in order, and writes `Visited(1)`, `Visited(2)`, ... into their cells.
    /// Returns `None`, and leaves the grid as it was, when no route exists.
    pub fn bfs(&mut self, start_point: Point) -> (r: Option<Vec<Point>>)
        requires
            old(self).wf(),
            old(self).width * old(self).height <= u32::MAX,
        ensures
            final(self).wf(),
            r is None <==> !old(self).reachable(start_point),
            r is None ==> *final(self) == *old(self),
            r matches Some(path) ==> old(self).shortest_route_inner(start_point, path@)
                && final(self).marks(*old(self), path@),
    {
        let ghost g = *self;
        if !self.is_within_bounds(start_point) {
            return None;
        }
        if self.cells[start_point.y][start_point.x] == CellType::Destination {
            let path: Vec<Point> = Vec::new();
            proof {
                let w = seq![start_point];
                assert(g.is_route(start_point, w));
                assert(inner(w) =~= path@);
            }
            self.mark_path(&path);
            return Some(path);
        }
        let width = self.width;
        let height = self.height;
        let mut reached = new_matrix(width, height, false);
        let mut dist = new_matrix(width, height, 0usize);
        let mut parent = new_matrix(width, height, start_point);
        proof {
            lemma_unset_all_false(reached@, width as int, height as int);
        }
        let ghost r0 = reached@;
        set_entry(&mut reached, start_point, true);
        proof {
            lemma_unset_update(r0, reached@, start_point);
        }
        let mut order: Vec<Point> = Vec::new();
        order.push(start_point);
        let mut head: usize = 0;
        proof {
            reveal(listed);
            reveal(ascending);
            reveal(expanded_before);
            reveal(parent_chain);
            assert(order@.contains(start_point)) by {
                assert(order@[0] == start_point);
            }
            assert forall|p: Point| g.in_bounds(p) && #[trigger] entry(reached@, p) implies order@.contains(p)
                && entry(dist@, p) < order@.len() by {
                if p != start_point {
                    assert(entry(r0, p) == entry(reached@, p));
                }
            }
        }
        while head < order.len()
            invariant
                *self == g,
                g == *old(self),
                width == g.width,
                height == g.height,
                bfs_state(g, start_point, reached@, dist@, parent@, order@, head as int),
                head < order@.len() ==> forall|p: Point|
                    g.in_bounds(p) && #[trigger] entry(reached@, p) ==> entry(dist@, p) <= entry(
                        dist@,
                        order@[head as int],
                    ) + 1,
            decreases width * height - head,
        {
            let u = order[head];
            proof {
                reveal(listed);
            }
            if self.cells[u.y][u.x] == CellType::Destination {
                let (path, Ghost(w)) = self.construct_path(&parent, &dist, Ghost(reached@), start_point, u);
                proof {
                    lemma_bfs_found(g, start_point, reached@, dist@, parent@, order@, head as int, w);
                }
                self.mark_path(&path);
                proof {
                    assert(g.reachable(start_point));
                }
                return Some(path);
            }
            self.bfs_expand(start_point, u, head, &mut reached, &mut dist, &mut parent, &mut order);
            head = head + 1;
        }
        proof {
            lemma_bfs_exhausted(g, start_point, reached@, dist@, parent@, order@);
        }
        None
    }
}

} // verus!
