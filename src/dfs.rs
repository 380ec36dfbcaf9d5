use vstd::prelude::*;
use crate::grid::{adjacent, direction_to, inner, lemma_neighbor, lemma_neighbor_cover, CellType, Grid, Point};
use crate::matrix::{
    entry, is_matrix, lemma_unset_all_false, lemma_unset_update, new_matrix, set_entry, unset,
};
use crate::trace::{lemma_depth_inner, lemma_walk_closed, parent_chain};

verus! {

/// Some entry of the stack would enter `q`.
pub open spec fn on_stack(stack: Seq<(Point, Point)>, q: Point) -> bool {
    exists|i: int| 0 <= i < stack.len() && (#[trigger] stack[i]).0 == q
}

/// Each stack entry `(p, from)` steps from the visited point `from` onto the
/// adjacent open point `p`.
#[verifier::opaque]
pub open spec fn stack_ok(g: Grid, visited: Seq<Vec<bool>>, stack: Seq<(Point, Point)>) -> bool {
    forall|i: int|
        0 <= i < stack.len() ==> {
            let (p, from) = #[trigger] stack[i];
            &&& g.open_at(p)
            &&& g.in_bounds(from)
            &&& entry(visited, from)
            &&& adjacent(from, p)
        }
}

/// Every visited point is no destination, and each of its open neighbours
/// is visited or waits on the stack.
#[verifier::opaque]
pub open spec fn visited_expanded(g: Grid, visited: Seq<Vec<bool>>, stack: Seq<(Point, Point)>) -> bool {
    forall|u: Point|
        g.in_bounds(u) && #[trigger] entry(visited, u) ==> {
            &&& g.cell(u) != CellType::Destination
            &&& forall|q: Point|
                g.open_at(q) && #[trigger] adjacent(u, q) ==> entry(visited, q) || on_stack(stack, q)
        }
}

/// The state of a depth-first search.
pub open spec fn dfs_state(
    g: Grid,
    start: Point,
    visited: Seq<Vec<bool>>,
    depth: Seq<Vec<usize>>,
    parent: Seq<Vec<Point>>,
    stack: Seq<(Point, Point)>,
) -> bool {
    &&& g.wf()
    &&& g.in_bounds(start)
    &&& g.width * g.height <= u32::MAX
    &&& is_matrix(visited, g.width as int, g.height as int)
    &&& is_matrix(depth, g.width as int, g.height as int)
    &&& is_matrix(parent, g.width as int, g.height as int)
    &&& unset(visited) <= g.width * g.height
    &&& forall|p: Point|
        g.in_bounds(p) && #[trigger] entry(visited, p) ==> entry(depth, p) < g.width * g.height - unset(
            visited,
        )
    &&& parent_chain(g, start, visited, depth, parent)
    &&& stack_ok(g, visited, stack)
    &&& visited_expanded(g, visited, stack)
}

/// Visiting the point `p`, entered from `from`, keeps the search state for the
/// stack without its top entry, except that `p` is not expanded yet.
proof fn lemma_dfs_visit(
    g: Grid,
    start: Point,
    v0: Seq<Vec<bool>>,
    d0: Seq<Vec<usize>>,
    p0: Seq<Vec<Point>>,
    s0: Seq<(Point, Point)>,
    p: Point,
    from: Point,
    v1: Seq<Vec<bool>>,
    d1: Seq<Vec<usize>>,
    p1: Seq<Vec<Point>>,
)
    requires
        dfs_state(g, start, v0, d0, p0, s0),
        s0.len() > 0,
        s0.last() == (p, from),
        !entry(v0, p),
        unset(v1) + 1 == unset(v0),
        is_matrix(v1, g.width as int, g.height as int),
        is_matrix(d1, g.width as int, g.height as int),
        is_matrix(p1, g.width as int, g.height as int),
        forall|x: Point| g.in_bounds(x) ==> #[trigger] entry(v1, x) == (x == p || entry(v0, x)),
        forall|x: Point|
            g.in_bounds(x) ==> #[trigger] entry(d1, x) == if x == p {
                entry(d0, from) + 1
            } else {
                entry(d0, x) as int
            },
        forall|x: Point|
            g.in_bounds(x) ==> #[trigger] entry(p1, x) == if x == p {
                from
            } else {
                entry(p0, x)
            },
    ensures
        g.in_bounds(p),
        g.open_at(p),
        entry(v1, p),
        unset(v1) <= g.width * g.height,
        forall|x: Point|
            g.in_bounds(x) && #[trigger] entry(v1, x) ==> entry(d1, x) < g.width * g.height - unset(v1),
        parent_chain(g, start, v1, d1, p1),
        stack_ok(g, v1, s0.drop_last()),
        forall|u: Point|
            g.in_bounds(u) && #[trigger] entry(v1, u) && u != p ==> {
                &&& g.cell(u) != CellType::Destination
                &&& forall|q: Point|
                    g.open_at(q) && #[trigger] adjacent(u, q) ==> entry(v1, q) || on_stack(s0.drop_last(), q)
            },
{
    reveal(stack_ok);
    reveal(visited_expanded);
    reveal(parent_chain);
    let s1 = s0.drop_last();
    assert(s0[s0.len() - 1] == (p, from));
    assert(g.in_bounds(from) && entry(v0, from));
    assert(p != start);
    assert forall|i: int| 0 <= i < s1.len() implies {
        let (a, b) = #[trigger] s1[i];
        &&& g.open_at(a)
        &&& g.in_bounds(b)
        &&& entry(v1, b)
        &&& adjacent(b, a)
    } by {
        assert(s1[i] == s0[i]);
    }
    assert forall|x: Point| g.in_bounds(x) && #[trigger] entry(v1, x) && x != start implies {
        let q = entry(p1, x);
        &&& g.in_bounds(q)
        &&& entry(v1, q)
        &&& adjacent(q, x)
        &&& g.open_at(x)
        &&& entry(d1, x) == entry(d1, q) + 1
    } by {
        if x != p {
            assert(g.in_bounds(entry(p0, x)) && entry(v0, entry(p0, x)));
        }
    }
    assert forall|u: Point| g.in_bounds(u) && #[trigger] entry(v1, u) && u != p implies {
        &&& g.cell(u) != CellType::Destination
        &&& forall|q: Point|
            g.open_at(q) && #[trigger] adjacent(u, q) ==> entry(v1, q) || on_stack(s1, q)
    } by {
        assert(entry(v0, u));
        assert forall|q: Point| g.open_at(q) && #[trigger] adjacent(u, q) implies entry(v1, q) || on_stack(s1, q) by {
            if !entry(v1, q) {
                assert(on_stack(s0, q));
                let i = choose|i: int| 0 <= i < s0.len() && (#[trigger] s0[i]).0 == q;
                assert(i != s0.len() - 1);
                assert(s1[i] == s0[i]);
            }
        }
    }
}

/// Dropping the top entry of the stack, whose point is visited already,
/// keeps the search state.
proof fn lemma_dfs_skip(
    g: Grid,
    start: Point,
    visited: Seq<Vec<bool>>,
    depth: Seq<Vec<usize>>,
    parent: Seq<Vec<Point>>,
    s0: Seq<(Point, Point)>,
)
    requires
        dfs_state(g, start, visited, depth, parent, s0),
        s0.len() > 0,
        entry(visited, s0.last().0),
    ensures
        dfs_state(g, start, visited, depth, parent, s0.drop_last()),
{
    reveal(stack_ok);
    reveal(visited_expanded);
    let s1 = s0.drop_last();
    assert(s0[s0.len() - 1] == s0.last());
    assert forall|i: int| 0 <= i < s1.len() implies {
        let (a, b) = #[trigger] s1[i];
        &&& g.open_at(a)
        &&& g.in_bounds(b)
        &&& entry(visited, b)
        &&& adjacent(b, a)
    } by {
        assert(s1[i] == s0[i]);
    }
    assert forall|u: Point| g.in_bounds(u) && #[trigger] entry(visited, u) implies {
        &&& g.cell(u) != CellType::Destination
        &&& forall|q: Point|
            g.open_at(q) && #[trigger] adjacent(u, q) ==> entry(visited, q) || on_stack(s1, q)
    } by {
        assert forall|q: Point| g.open_at(q) && #[trigger] adjacent(u, q) implies entry(visited, q) || on_stack(
            s1,
            q,
        ) by {
            if !entry(visited, q) {
                let i = choose|i: int| 0 <= i < s0.len() && (#[trigger] s0[i]).0 == q;
                assert(i != s0.len() - 1);
                assert(s1[i] == s0[i]);
            }
        }
    }
}

/// After the newly visited point `p` has had its neighbours pushed, the
/// search state holds again.
proof fn lemma_dfs_pushed(
    g: Grid,
    start: Point,
    visited: Seq<Vec<bool>>,
    depth: Seq<Vec<usize>>,
    parent: Seq<Vec<Point>>,
    s1: Seq<(Point, Point)>,
    s2: Seq<(Point, Point)>,
    p: Point,
)
    requires
        g.wf(),
        g.in_bounds(start),
        g.width * g.height <= u32::MAX,
        is_matrix(visited, g.width as int, g.height as int),
        is_matrix(depth, g.width as int, g.height as int),
        is_matrix(parent, g.width as int, g.height as int),
        unset(visited) <= g.width * g.height,
        forall|x: Point|
            g.in_bounds(x) && #[trigger] entry(visited, x) ==> entry(depth, x) < g.width * g.height - unset(
                visited,
            ),
        parent_chain(g, start, visited, depth, parent),
        stack_ok(g, visited, s1),
        g.in_bounds(p),
        entry(visited, p),
        g.cell(p) != CellType::Destination,
        forall|u: Point|
            g.in_bounds(u) && #[trigger] entry(visited, u) && u != p ==> {
                &&& g.cell(u) != CellType::Destination
                &&& forall|q: Point|
                    g.open_at(q) && #[trigger] adjacent(u, q) ==> entry(visited, q) || on_stack(s1, q)
            },
        s2.len() >= s1.len(),
        s2.subrange(0, s1.len() as int) == s1,
        forall|i: int|
            s1.len() <= i < s2.len() ==> {
                let (a, from) = #[trigger] s2[i];
                &&& g.open_at(a)
                &&& from == p
                &&& adjacent(p, a)
            },
        forall|q: Point| g.open_at(q) && #[trigger] adjacent(p, q) ==> entry(visited, q) || on_stack(s2, q),
    ensures
        dfs_state(g, start, visited, depth, parent, s2),
{
    reveal(stack_ok);
    reveal(visited_expanded);
    assert forall|i: int| 0 <= i < s2.len() implies {
        let (a, b) = #[trigger] s2[i];
        &&& g.open_at(a)
        &&& g.in_bounds(b)
        &&& entry(visited, b)
        &&& adjacent(b, a)
    } by {
        if i < s1.len() {
            assert(s2[i] == s2.subrange(0, s1.len() as int)[i]);
            assert(s2[i] == s1[i]);
        }
    }
    assert forall|u: Point| g.in_bounds(u) && #[trigger] entry(visited, u) implies {
        &&& g.cell(u) != CellType::Destination
        &&& forall|q: Point|
            g.open_at(q) && #[trigger] adjacent(u, q) ==> entry(visited, q) || on_stack(s2, q)
    } by {
        if u != p {
            assert forall|q: Point| g.open_at(q) && #[trigger] adjacent(u, q) implies entry(visited, q) || on_stack(
                s2,
                q,
            ) by {
                if !entry(visited, q) {
                    assert(on_stack(s1, q));
                    let i = choose|i: int| 0 <= i < s1.len() && (#[trigger] s1[i]).0 == q;
                    assert(s2[i] == s2.subrange(0, s1.len() as int)[i]);
                }
            }
        }
    }
}

/// With the stack empty, no destination can be reached.
proof fn lemma_dfs_exhausted(
    g: Grid,
    start: Point,
    visited: Seq<Vec<bool>>,
    depth: Seq<Vec<usize>>,
    parent: Seq<Vec<Point>>,
    stack: Seq<(Point, Point)>,
)
    requires
        dfs_state(g, start, visited, depth, parent, stack),
        stack.len() == 0,
    ensures
        !g.reachable(start),
{
    reveal(visited_expanded);
    reveal(parent_chain);
    assert forall|p: Point, q: Point|
        g.in_bounds(p) && #[trigger] entry(visited, p) && g.open_at(q) && #[trigger] adjacent(p, q) implies entry(
        visited,
        q,
    ) by {
        assert(!on_stack(stack, q));
    }
    assert forall|v: Seq<Point>| !g.is_route(start, v) by {
        if g.is_route(start, v) {
            lemma_walk_closed(g, start, visited, v);
            if v.len() > 1 {
                assert(g.open_at(v[v.len() - 1]));
            }
            assert(g.in_bounds(v.last()));
        }
    }
}

impl Grid {
    /// Depth-first search from `start_point` to a destination cell, over
    /// blank and destination cells, with an explicit stack onto which the
    /// neighbours are pushed in the order up, right, down, left.
    ///
    /// Returns the points strictly between the two ends of a route that
    /// visits no point twice, in order, and writes `Visited(1)`,
    /// `Visited(2)`, ... into their cells. Returns `None`, and leaves the grid
    /// as it was, when no route exists.
    pub fn dfs(&mut self, start_point: Point) -> (r: Option<Vec<Point>>)
        requires
            old(self).wf(),
            old(self).width * old(self).height <= u32::MAX,
        ensures
            final(self).wf(),
            r is None <==> !old(self).reachable(start_point),
            r is None ==> *final(self) == *old(self),
            r matches Some(path) ==> old(self).simple_route_inner(start_point, path@)
                && final(self).marks(*old(self), path@),
    {
        let ghost g = *self;
        if !self.is_within_bounds(start_point) {
            return None;
        }
        if self.cells[start_point.y][start_point.x] == CellType::Destination {
            let path: Vec<Point> = Vec::new();
            proof {
                let w = seq![start_point];
                assert(g.is_route(start_point, w));
                assert(inner(w) =~= path@);
            }
            self.mark_path(&path);
            return Some(path);
        }
        let width = self.width;
        let height = self.height;
        let mut visited = new_matrix(width, height, false);
        let mut depth = new_matrix(width, height, 0usize);
        let mut parent = new_matrix(width, height, start_point);
        proof {
            lemma_unset_all_false(visited@, width as int, height as int);
        }
        let ghost v0 = visited@;
        set_entry(&mut visited, start_point, true);
        proof {
            lemma_unset_update(v0, visited@, start_point);
        }
        let mut stack: Vec<(Point, Point)> = Vec::new();
        self.dfs_push_neighbors(start_point, &visited, &mut stack);
        proof {
            reveal(parent_chain);
            reveal(stack_ok);
            assert forall|x: Point| g.in_bounds(x) && #[trigger] entry(visited@, x) implies x == start_point by {
                if x != start_point {
                    assert(entry(v0, x) == entry(visited@, x));
                }
            }
            assert(stack@.subrange(0, 0) =~= Seq::<(Point, Point)>::empty());
            lemma_dfs_pushed(g, start_point, visited@, depth@, parent@, Seq::empty(), stack@, start_point);
        }
        while stack.len() > 0
            invariant
                *self == g,
                g == *old(self),
                width == g.width,
                height == g.height,
                g.cell(start_point) != CellType::Destination,
                dfs_state(g, start_point, visited@, depth@, parent@, stack@),
            decreases unset(visited@), stack@.len(),
        {
            let ghost s0 = stack@;
            let top = stack.pop();
            proof {
                reveal(stack_ok);
                assert(s0[s0.len() - 1] == s0.last());
                assert(stack@ == s0.drop_last());
            }
            if let Some(entry_top) = top {
                let (p, from) = entry_top;
                if !visited[p.y][p.x] {
                    let ghost st = (visited@, depth@, parent@);
                    let df = depth[from.y][from.x];
                    set_entry(&mut visited, p, true);
                    set_entry(&mut depth, p, df + 1);
                    set_entry(&mut parent, p, from);
                    proof {
                        lemma_unset_update(st.0, visited@, p);
                        lemma_dfs_visit(g, start_point, st.0, st.1, st.2, s0, p, from, visited@, depth@, parent@);
                    }
                    if self.cells[p.y][p.x] == CellType::Destination {
                        let (path, Ghost(w)) = self.construct_path(&parent, &depth, Ghost(visited@), start_point, p);
                        proof {
                            lemma_depth_inner(g, depth@, w);
                            assert(g.is_route(start_point, w));
                            assert forall|i: int| 0 <= i < path@.len() implies g.cell(#[trigger] path@[i])
                                != CellType::Destination by {
                                assert(path@[i] == w[i + 1]);
                                assert(entry(visited@, w[i + 1]));
                                assert(g.open_at(w[i + 1]));
                                assert(w[i + 1] != p) by {
                                    assert(w[w.len() - 1] == p);
                                }
                            }
                            assert(g.simple_route_inner(start_point, path@));
                            assert(g.reachable(start_point));
                        }
                        self.mark_path(&path);
                        return Some(path);
                    }
                    let ghost s1 = stack@;
                    self.dfs_push_neighbors(p, &visited, &mut stack);
                    proof {
                        lemma_dfs_pushed(g, start_point, visited@, depth@, parent@, s1, stack@, p);
                    }
                } else {
                    proof {
                        lemma_dfs_skip(g, start_point, visited@, depth@, parent@, s0);
                    }
                }
            }
        }
        proof {
            lemma_dfs_exhausted(g, start_point, visited@, depth@, parent@, stack@);
        }
        None
    }

    /// Pushes onto the stack, in the order up, right, down, left, an entry
    /// `(q, u)` for each open neighbour `q` of `u` not visited yet.
    fn dfs_push_neighbors(&self, u: Point, visited: &Vec<Vec<bool>>, stack: &mut Vec<(Point, Point)>)
        requires
            self.wf(),
            self.in_bounds(u),
            is_matrix(visited@, self.width as int, self.height as int),
        ensures
            final(stack)@.len() >= old(stack)@.len(),
            final(stack)@.subrange(0, old(stack)@.len() as int) == old(stack)@,
            forall|i: int|
                old(stack)@.len() <= i < final(stack)@.len() ==> {
                    let (p, from) = #[trigger] final(stack)@[i];
                    &&& self.open_at(p)
                    &&& from == u
                    &&& adjacent(u, p)
                },
            forall|q: Point|
                self.open_at(q) && #[trigger] adjacent(u, q) ==> entry(visited@, q) || on_stack(
                    final(stack)@,
                    q,
                ),
    {
        let ghost s0 = stack@;
        let mut d: usize = 0;
        while d < 4
            invariant
                self.wf(),
                self.in_bounds(u),
                is_matrix(visited@, self.width as int, self.height as int),
                d <= 4,
                stack@.len() >= s0.len(),
                stack@.subrange(0, s0.len() as int) == s0,
                forall|i: int|
                    s0.len() <= i < stack@.len() ==> {
                        let (p, from) = #[trigger] stack@[i];
                        &&& self.open_at(p)
                        &&& from == u
                        &&& adjacent(u, p)
                    },
                forall|e: int|
                    0 <= e < d ==> match #[trigger] self.neighbor_spec(u, e) {
                        Some(q) => self.open_at(q) ==> entry(visited@, q) || on_stack(stack@, q),
                        None => true,
                    },
            decreases 4 - d,
        {
            proof {
                lemma_neighbor(*self, u, d as int);
            }
            let ghost sb = stack@;
            if let Some(q) = self.neighbor(u, d) {
                let c = self.cells[q.y][q.x];
                if !visited[q.y][q.x] && (c == CellType::Blank || c == CellType::Destination) {
                    stack.push((q, u));
                    proof {
                        assert(stack@[stack@.len() - 1] == (q, u));
                        assert(stack@.subrange(0, s0.len() as int) =~= s0);
                    }
                }
            }
            proof {
                assert forall|e: int| 0 <= e < d + 1 implies match #[trigger] self.neighbor_spec(u, e) {
                    Some(q) => self.open_at(q) ==> entry(visited@, q) || on_stack(stack@, q),
                    None => true,
                } by {
                    if e < d {
                        if let Some(q) = self.neighbor_spec(u, e) {
                            if self.open_at(q) && !entry(visited@, q) {
                                assert(on_stack(sb, q));
                                let i = choose|i: int| 0 <= i < sb.len() && (#[trigger] sb[i]).0 == q;
                                assert(stack@[i] == sb[i]);
                            }
                        }
                    } else {
                        if let Some(q) = self.neighbor_spec(u, e) {
                            if self.open_at(q) && !entry(visited@, q) {
                                assert(stack@[stack@.len() - 1].0 == q);
                            }
                        }
                    }
                }
            }
            d = d + 1;
        }
        proof {
            assert forall|q: Point| self.open_at(q) && #[trigger] adjacent(u, q) implies entry(visited@, q) || on_stack(
                stack@,
                q,
            ) by {
                lemma_neighbor_cover(*self, u, q);
                let e = direction_to(u, q);
                assert(match self.neighbor_spec(u, e) {
                    Some(q) => self.open_at(q) ==> entry(visited@, q) || on_stack(stack@, q),
                    None => true,
                });
            }
        }
    }
}

} // verus!
