use vstd::prelude::*;
use crate::grid::{adjacent, inner, lemma_walk_prefix, Grid, Point};
use crate::matrix::{entry, is_matrix};

verus! {

#[verifier::opaque]
/// Every known point but `start` has a known parent one step away, from which
/// it is entered, at depth one less; `start` is known at depth 0.
pub open spec fn parent_chain(
    g: Grid,
    start: Point,
    known: Seq<Vec<bool>>,
    depth: Seq<Vec<usize>>,
    parent: Seq<Vec<Point>>,
) -> bool {
    &&& entry(known, start)
    &&& entry(depth, start) == 0
    &&& forall|p: Point|
        g.in_bounds(p) && #[trigger] entry(known, p) && p != start ==> {
            let q = entry(parent, p);
            &&& g.in_bounds(q)
            &&& entry(known, q)
            &&& adjacent(q, p)
            &&& g.open_at(p)
            &&& entry(depth, p) == entry(depth, q) + 1
        }
}

/// The points strictly inside a walk whose `i`-th point is at depth `i` are
/// distinct and in bounds.
pub proof fn lemma_depth_inner(g: Grid, dist: Seq<Vec<usize>>, w: Seq<Point>)
    requires
        g.is_walk(w),
        forall|i: int| 0 <= i < w.len() ==> entry(dist, #[trigger] w[i]) == i,
    ensures
        w.no_duplicates(),
        inner(w).no_duplicates(),
        forall|i: int| 0 <= i < inner(w).len() ==> g.in_bounds(#[trigger] inner(w)[i]),
{
    assert forall|i: int, j: int| 0 <= i < w.len() && 0 <= j < w.len() && i != j implies w[i] != w[j] by {
        assert(entry(dist, w[i]) == i && entry(dist, w[j]) == j);
    }
    let n = inner(w);
    if w.len() > 2 {
        assert forall|i: int, j: int| 0 <= i < n.len() && 0 <= j < n.len() && i != j implies n[i] != n[j] by {
            assert(n[i] == w[i + 1] && n[j] == w[j + 1]);
            assert(entry(dist, w[i + 1]) == i + 1);
            assert(entry(dist, w[j + 1]) == j + 1);
        }
        assert forall|i: int| 0 <= i < n.len() implies g.in_bounds(#[trigger] n[i]) by {
            assert(n[i] == w[i + 1]);
            assert(g.open_at(w[i + 1]));
        }
    }
}

/// A set of points that holds `start` and, with each of its points, every
/// open neighbour of it, holds the end of every walk from `start`.
pub proof fn lemma_walk_closed(g: Grid, start: Point, seen: Seq<Vec<bool>>, w: Seq<Point>)
    requires
        g.is_walk(w),
        w[0] == start,
        entry(seen, start),
        forall|p: Point, q: Point|
            g.in_bounds(p) && #[trigger] entry(seen, p) && g.open_at(q) && #[trigger] adjacent(p, q) ==> entry(
                seen,
                q,
            ),
    ensures
        entry(seen, w.last()),
    decreases w.len(),
{
    if w.len() > 1 {
        let n = w.len() as int;
        lemma_walk_prefix(g, w, n - 1);
        lemma_walk_closed(g, start, seen, w.subrange(0, n - 1));
        assert(w.subrange(0, n - 1).last() == w[n - 2]);
        if n - 2 > 0 {
            assert(g.open_at(w[n - 2]));
        }
        assert(adjacent(w[n - 2], w[n - 1]) && g.open_at(w[n - 1]));
    } else {
        assert(w.last() == start);
    }
}

/// Along `tail` depths rise by one per step, each point is known, enterable
/// from the one before, and that one's parent.
#[verifier::opaque]
pub open spec fn tail_ok(
    g: Grid,
    known: Seq<Vec<bool>>,
    depth: Seq<Vec<usize>>,
    parent: Seq<Vec<Point>>,
    tail: Seq<Point>,
) -> bool {
    &&& forall|i: int| 0 <= i < tail.len() ==> entry(depth, #[trigger] tail[i]) == entry(depth, tail[0]) + i
    &&& forall|i: int| 1 <= i < tail.len() ==> adjacent(tail[i - 1], #[trigger] tail[i]) && g.open_at(tail[i])
    &&& forall|i: int| 0 <= i < tail.len() ==> entry(known, #[trigger] tail[i])
    &&& forall|i: int| 0 <= i < tail.len() - 1 ==> tail[i] == entry(parent, #[trigger] tail[i + 1])
}

/// Putting the parent of its first point in front keeps a tail well formed.
proof fn lemma_tail_extend(
    g: Grid,
    known: Seq<Vec<bool>>,
    depth: Seq<Vec<usize>>,
    parent: Seq<Vec<Point>>,
    tail: Seq<Point>,
)
    requires
        tail.len() >= 1,
        tail_ok(g, known, depth, parent, tail),
        entry(known, entry(parent, tail[0])),
        adjacent(entry(parent, tail[0]), tail[0]),
        g.open_at(tail[0]),
        entry(depth, tail[0]) == entry(depth, entry(parent, tail[0])) + 1,
    ensures
        tail_ok(g, known, depth, parent, seq![entry(parent, tail[0])] + tail),
{
    reveal(tail_ok);
    let cur = tail[0];
    let p = entry(parent, cur);
    let t2 = seq![p] + tail;
    assert forall|i: int| 0 <= i < t2.len() implies entry(depth, #[trigger] t2[i]) == entry(depth, t2[0]) + i by {
        if i > 0 {
            assert(t2[i] == tail[i - 1]);
        }
    }
    assert forall|i: int| 1 <= i < t2.len() implies adjacent(t2[i - 1], #[trigger] t2[i]) && g.open_at(t2[i]) by {
        if i > 1 {
            assert(t2[i] == tail[i - 1] && t2[i - 1] == tail[i - 2]);
        }
    }
    assert forall|i: int| 0 <= i < t2.len() implies entry(known, #[trigger] t2[i]) by {
        if i > 0 {
            assert(t2[i] == tail[i - 1]);
        }
    }
    assert forall|i: int| 0 <= i < t2.len() - 1 implies t2[i] == entry(parent, #[trigger] t2[i + 1]) by {
        if i > 0 {
            assert(t2[i] == tail[i - 1] && t2[i + 1] == tail[i]);
            let j = i - 1;
            assert(tail[j] == entry(parent, tail[j + 1]));
        } else {
            assert(t2[1] == tail[0]);
        }
    }
}

impl Grid {
    /// Follows the parent links back from `dest` to `start`. Returns the points
    /// strictly between the two, in order from `start`, and (as a ghost value)
    /// the whole walk; the `i`-th point of the walk is at depth `i`.
    #[verifier::rlimit(80)]
    pub(crate) fn construct_path(
        &self,
        parent: &Vec<Vec<Point>>,
        depth: &Vec<Vec<usize>>,
        Ghost(known): Ghost<Seq<Vec<bool>>>,
        start: Point,
        dest: Point,
    ) -> (r: (Vec<Point>, Ghost<Seq<Point>>))
        requires
            self.wf(),
            self.in_bounds(start),
            self.in_bounds(dest),
            entry(known, dest),
            is_matrix(known, self.width as int, self.height as int),
            is_matrix(depth@, self.width as int, self.height as int),
            is_matrix(parent@, self.width as int, self.height as int),
            parent_chain(*self, start, known, depth@, parent@),
        ensures
            self.is_walk(r.1@),
            r.1@[0] == start,
            r.1@.last() == dest,
            r.1@.len() == entry(depth@, dest) + 1,
            r.0@ == inner(r.1@),
            forall|i: int| 0 <= i < r.1@.len() ==> entry(depth@, #[trigger] r.1@[i]) == i,
            forall|i: int| 0 <= i < r.1@.len() ==> entry(known, #[trigger] r.1@[i]),
            forall|i: int| 0 <= i < r.1@.len() - 1 ==> r.1@[i] == entry(parent@, #[trigger] r.1@[i + 1]),
    {
        proof {
            reveal(parent_chain);
        }
        if dest == start {
            let ghost w = seq![start];
            return (Vec::new(), Ghost(w));
        }
        let d = depth[dest.y][dest.x];
        let mut path: Vec<Point> = Vec::new();
        let mut k: usize = 0;
        while k + 1 < d
            invariant
                1 <= d,
                k < d,
                path@.len() == k,
            decreases d - k,
        {
            path.push(start);
            k = k + 1;
        }
        let mut cur = parent[dest.y][dest.x];
        let ghost mut tail = seq![cur, dest];
        proof {
            reveal(tail_ok);
        }
        while cur != start
            invariant
                self.wf(),
                self.in_bounds(start),
                is_matrix(known, self.width as int, self.height as int),
                is_matrix(depth@, self.width as int, self.height as int),
                is_matrix(parent@, self.width as int, self.height as int),
                parent_chain(*self, start, known, depth@, parent@),
                d == entry(depth@, dest),
                d >= 1,
                path@.len() == d - 1,
                self.in_bounds(cur),
                entry(known, cur),
                tail.len() == d - entry(depth@, cur) + 1,
                tail.len() >= 2,
                tail[0] == cur,
                tail.last() == dest,
                tail_ok(*self, known, depth@, parent@, tail),
                forall|k: int| entry(depth@, cur) <= k < d - 1 ==> #[trigger] path@[k] == tail[k - entry(depth@, cur) + 1],
            decreases entry(depth@, cur),
        {
            let c = depth[cur.y][cur.x];
            let ghost path0 = path@;
            let p = parent[cur.y][cur.x];
            proof {
                reveal(parent_chain);
                assert(entry(known, cur));
                assert(entry(depth@, cur) == entry(depth@, p) + 1);
                assert(entry(known, p) && adjacent(p, cur) && self.open_at(cur));
            }
            path[c - 1] = cur;
            proof {
                let t2 = seq![p] + tail;
                assert(path@ == path0.update(c - 1, cur));
                assert forall|k: int| entry(depth@, p) <= k < d - 1 implies #[trigger] path@[k] == t2[k - entry(depth@, p) + 1] by {
                    if k > c - 1 {
                        assert(path@[k] == path0[k]);
                    }
                }
                lemma_tail_extend(*self, known, depth@, parent@, tail);
                tail = t2;
            }
            cur = p;
        }
        proof {
            reveal(tail_ok);
            assert(self.is_walk(tail));
            if d >= 2 {
                assert(path@ =~= inner(tail));
            } else {
                assert(path@ =~= inner(tail));
            }
        }
        (path, Ghost(tail))
    }
}

} // verus!
