use vstd::prelude::*;
use crate::grid::{adjacent, inner, lemma_walk_prefix, CellType, Grid, Point};

verus! {

/// Cutting out the part of a walk between two equal points leaves a walk
/// with the same ends.
pub proof fn lemma_walk_shortcut(g: Grid, w: Seq<Point>, i: int, j: int)
    requires
        g.is_walk(w),
        0 <= i < j < w.len(),
        w[i] == w[j],
    ensures
        g.is_walk(w.subrange(0, i + 1) + w.subrange(j + 1, w.len() as int)),
        (w.subrange(0, i + 1) + w.subrange(j + 1, w.len() as int))[0] == w[0],
        (w.subrange(0, i + 1) + w.subrange(j + 1, w.len() as int)).last() == w.last(),
        (w.subrange(0, i + 1) + w.subrange(j + 1, w.len() as int)).len() == w.len() - (j - i),
{
    let v = w.subrange(0, i + 1) + w.subrange(j + 1, w.len() as int);
    let s = j - i;
    assert forall|k: int| 0 <= k < v.len() implies #[trigger] v[k] == if k <= i {
        w[k]
    } else {
        w[k + s]
    } by {
    }
    assert forall|k: int| 1 <= k < v.len() implies adjacent(v[k - 1], #[trigger] v[k]) && g.open_at(v[k]) by {
        if k <= i {
            assert(v[k] == w[k] && v[k - 1] == w[k - 1]);
        } else if k == i + 1 {
            assert(v[k] == w[j + 1] && v[k - 1] == w[j]);
        } else {
            assert(v[k] == w[k + s] && v[k - 1] == w[k - 1 + s]);
        }
    }
    if v.len() == w.len() - s && w.len() - 1 > j {
        assert(v.last() == w[v.len() - 1 + s]);
    } else {
        assert(v.last() == w[i]);
    }
}

/// A shortest walk between two ends repeats no point.
proof fn lemma_shortest_walk_simple(g: Grid, w: Seq<Point>)
    requires
        g.is_walk(w),
        forall|v: Seq<Point>|
            g.is_walk(v) && v[0] == w[0] && v.last() == w.last() ==> w.len() <= v.len(),
    ensures
        w.no_duplicates(),
{
    assert forall|i: int, j: int| 0 <= i < w.len() && 0 <= j < w.len() && i != j implies w[i] != w[j] by {
        if w[i] == w[j] {
            if i < j {
                lemma_walk_shortcut(g, w, i, j);
            } else {
                lemma_walk_shortcut(g, w, j, i);
            }
        }
    }
}

/// The result of a successful search: the inside of a walk from `start` that
/// repeats no point.
pub open spec fn search_result(g: Grid, start: Point, dest: Point, path: Seq<Point>) -> bool {
    g.shortest_route_inner(start, path) || g.simple_route_inner(start, path) || g.shortest_route_to_inner(
        start,
        dest,
        path,
    )
}

/// What `bfs`, `dfs` and `a_star` return is the inside of a walk from the
/// start that repeats no point and ends, for `a_star`, at `dest`.
proof fn lemma_result_walk(g: Grid, start: Point, dest: Point, path: Seq<Point>) -> (w: Seq<Point>)
    requires
        search_result(g, start, dest, path),
    ensures
        g.is_walk(w),
        w[0] == start,
        inner(w) == path,
        w.no_duplicates(),
        g.shortest_route_to_inner(start, dest, path) ==> w.last() == dest,
{
    if g.shortest_route_to_inner(start, dest, path) {
        let w = choose|w: Seq<Point>|
            #[trigger] g.is_route_to(start, dest, w) && inner(w) == path && forall|v: Seq<Point>|
                g.is_route_to(start, dest, v) ==> w.len() <= v.len();
        assert forall|v: Seq<Point>| g.is_walk(v) && v[0] == w[0] && v.last() == w.last() implies w.len()
            <= v.len() by {
            assert(g.is_route_to(start, dest, v));
        }
        lemma_shortest_walk_simple(g, w);
        w
    } else if g.shortest_route_inner(start, path) {
        let w = choose|w: Seq<Point>|
            #[trigger] g.is_route(start, w) && inner(w) == path && forall|v: Seq<Point>|
                g.is_route(start, v) ==> w.len() <= v.len();
        assert forall|v: Seq<Point>| g.is_walk(v) && v[0] == w[0] && v.last() == w.last() implies w.len()
            <= v.len() by {
            assert(g.is_route(start, v));
        }
        lemma_shortest_walk_simple(g, w);
        w
    } else {
        let w = choose|w: Seq<Point>| #[trigger] g.is_route(start, w) && inner(w) == path && w.no_duplicates();
        w
    }
}

/// Bounds safety of the results: every point a search returns lies inside
/// the grid, and marking the path leaves every cell outside the grid's
/// bounds as it was.
pub proof fn lemma_results_in_bounds(before: Grid, after: Grid, start: Point, dest: Point, path: Seq<Point>)
    requires
        search_result(before, start, dest, path),
        after.marks(before, path),
    ensures
        forall|i: int| 0 <= i < path.len() ==> before.in_bounds(#[trigger] path[i]),
        forall|p: Point| before.has_cell(p) && !before.in_bounds(p) ==> #[trigger] after.cell(p) == before.cell(p),
{
    let w = lemma_result_walk(before, start, dest, path);
    assert forall|i: int| 0 <= i < path.len() implies before.in_bounds(#[trigger] path[i]) by {
        assert(path[i] == w[i + 1]);
        assert(before.open_at(w[i + 1]));
    }
    assert forall|p: Point| before.has_cell(p) && !before.in_bounds(p) implies #[trigger] after.cell(p) == before.cell(
        p,
    ) by {
        if path.contains(p) {
            let i = choose|i: int| 0 <= i < path.len() && path[i] == p;
            assert(before.in_bounds(path[i]));
        }
    }
}

/// The A* path is as long as the breadth-first one on the same grid, from the
/// same start, when `dest` holds the grid's only destination cell; and one
/// search finds a route exactly when the other does.
pub proof fn lemma_a_star_matches_bfs(
    g: Grid,
    start: Point,
    dest: Point,
    bfs_path: Seq<Point>,
    a_star_path: Seq<Point>,
)
    requires
        g.in_bounds(dest),
        g.cell(dest) == CellType::Destination,
        forall|p: Point| g.in_bounds(p) && #[trigger] g.cell(p) == CellType::Destination ==> p == dest,
        g.shortest_route_inner(start, bfs_path),
        g.shortest_route_to_inner(start, dest, a_star_path),
    ensures
        bfs_path.len() == a_star_path.len(),
{
    lemma_routes_agree(g, start, dest);
    let w1 = choose|w: Seq<Point>|
        #[trigger] g.is_route(start, w) && inner(w) == bfs_path && forall|v: Seq<Point>|
            g.is_route(start, v) ==> w.len() <= v.len();
    let w2 = choose|w: Seq<Point>|
        #[trigger] g.is_route_to(start, dest, w) && inner(w) == a_star_path && forall|v: Seq<Point>|
            g.is_route_to(start, dest, v) ==> w.len() <= v.len();
    assert(g.is_route(start, w2));
    assert(g.is_route_to(start, dest, w1));
    assert(w1.len() == w2.len());
}

/// With a single destination cell at `dest`, the routes from `start` to a
/// destination are the routes from `start` to `dest`.
pub proof fn lemma_routes_agree(g: Grid, start: Point, dest: Point)
    requires
        g.cell(dest) == CellType::Destination,
        forall|p: Point| g.in_bounds(p) && #[trigger] g.cell(p) == CellType::Destination ==> p == dest,
    ensures
        forall|w: Seq<Point>| #[trigger] g.is_route(start, w) <==> g.is_route_to(start, dest, w),
        g.reachable(start) <==> g.reachable_to(start, dest),
{
    assert forall|w: Seq<Point>| #[trigger] g.is_route(start, w) <==> g.is_route_to(start, dest, w) by {
        if g.is_walk(w) && w.len() > 1 {
            assert(g.open_at(w[w.len() - 1]));
        }
    }
    if g.reachable(start) {
        let w = choose|w: Seq<Point>| g.is_route(start, w);
        assert(g.is_route_to(start, dest, w));
    }
    if g.reachable_to(start, dest) {
        let w = choose|w: Seq<Point>| g.is_route_to(start, dest, w);
        assert(g.is_route(start, w));
    }
}

/// The breadth-first path holds neither the start nor any destination cell.
pub proof fn lemma_bfs_path_excludes_ends(g: Grid, start: Point, path: Seq<Point>)
    requires
        g.shortest_route_inner(start, path),
    ensures
        !path.contains(start),
        forall|i: int| 0 <= i < path.len() ==> g.cell(#[trigger] path[i]) != CellType::Destination,
{
    let w = choose|w: Seq<Point>|
        #[trigger] g.is_route(start, w) && inner(w) == path && forall|v: Seq<Point>|
            g.is_route(start, v) ==> w.len() <= v.len();
    assert forall|v: Seq<Point>| g.is_walk(v) && v[0] == w[0] && v.last() == w.last() implies w.len() <= v.len() by {
        assert(g.is_route(start, v));
    }
    lemma_shortest_walk_simple(g, w);
    if path.contains(start) {
        let i = choose|i: int| 0 <= i < path.len() && path[i] == start;
        assert(w[i + 1] == path[i]);
    }
    assert forall|i: int| 0 <= i < path.len() implies g.cell(#[trigger] path[i]) != CellType::Destination by {
        assert(w[i + 1] == path[i]);
        if g.cell(path[i]) == CellType::Destination {
            lemma_walk_prefix(g, w, i + 2);
            assert(g.is_route(start, w.subrange(0, i + 2)));
        }
    }
}

/// The depth-first path holds neither the start nor any destination cell.
pub proof fn lemma_dfs_path_excludes_ends(g: Grid, start: Point, path: Seq<Point>)
    requires
        g.simple_route_inner(start, path),
    ensures
        !path.contains(start),
        forall|i: int| 0 <= i < path.len() ==> g.cell(#[trigger] path[i]) != CellType::Destination,
{
    let w = choose|w: Seq<Point>| #[trigger] g.is_route(start, w) && inner(w) == path && w.no_duplicates();
    if path.contains(start) {
        let i = choose|i: int| 0 <= i < path.len() && path[i] == start;
        assert(w[i + 1] == path[i]);
    }
}

/// The A* path holds neither `src` nor `dest`.
pub proof fn lemma_a_star_path_excludes_ends(g: Grid, src: Point, dest: Point, path: Seq<Point>)
    requires
        g.shortest_route_to_inner(src, dest, path),
    ensures
        !path.contains(src),
        !path.contains(dest),
{
    let w = lemma_result_walk(g, src, dest, path);
    if path.contains(src) {
        let i = choose|i: int| 0 <= i < path.len() && path[i] == src;
        assert(w[i + 1] == path[i]);
    }
    if path.contains(dest) {
        let i = choose|i: int| 0 <= i < path.len() && path[i] == dest;
        assert(w[i + 1] == path[i]);
        assert(w[w.len() - 1] == dest);
    }
}

/// The number carried by a path cell; 0 for any other cell.
pub open spec fn mark_number(c: CellType) -> int {
    match c {
        CellType::Visited(n) => n as int,
        _ => 0,
    }
}

/// The points whose cell is a path cell.
pub open spec fn marked_points(g: Grid) -> Set<Point> {
    Set::new(|p: Point| g.has_cell(p) && g.cell(p) is Visited)
}

/// No cell is a path cell.
pub open spec fn free_of_marks(g: Grid) -> bool {
    forall|p: Point| g.has_cell(p) ==> !(#[trigger] g.cell(p) is Visited)
}

/// After a successful search on a grid without path cells, the path cells
/// are exactly the returned points, as many as the path is long, numbered
/// `1..=path.len()` without gaps or repeats.
pub proof fn lemma_marking_consistent(before: Grid, after: Grid, start: Point, dest: Point, path: Seq<Point>)
    requires
        before.wf(),
        free_of_marks(before),
        search_result(before, start, dest, path),
        after.marks(before, path),
    ensures
        marked_points(after) == path.to_set(),
        marked_points(after).len() == path.len(),
        forall|p: Point|
            after.has_cell(p) && #[trigger] after.cell(p) is Visited ==> 1 <= mark_number(after.cell(p)) <= path.len()
                && path[mark_number(after.cell(p)) - 1] == p,
{
    let w = lemma_result_walk(before, start, dest, path);
    lemma_results_in_bounds(before, after, start, dest, path);
    assert(path.no_duplicates()) by {
        assert forall|i: int, j: int| 0 <= i < path.len() && 0 <= j < path.len() && i != j implies path[i] != path[j] by {
            assert(path[i] == w[i + 1] && path[j] == w[j + 1]);
        }
    }
    assert forall|p: Point| after.has_cell(p) && #[trigger] after.cell(p) is Visited implies path.contains(p) && 1
        <= mark_number(after.cell(p)) <= path.len() && path[mark_number(after.cell(p)) - 1] == p by {
        assert(after.has_cell(p) == before.has_cell(p));
        if !path.contains(p) {
            assert(after.cell(p) == before.cell(p));
        }
        let i = choose|i: int| 0 <= i < path.len() && path[i] == p;
        assert(after.cell(path[i]) == CellType::Visited((i + 1) as u32));
    }
    assert forall|p: Point| #[trigger] marked_points(after).contains(p) <==> path.to_set().contains(p) by {
        if path.contains(p) {
            let i = choose|i: int| 0 <= i < path.len() && path[i] == p;
            assert(after.cell(path[i]) == CellType::Visited((i + 1) as u32));
            assert(before.in_bounds(path[i]));
            assert(before.has_cell(p));
        }
    }
    assert(marked_points(after) =~= path.to_set());
    path.unique_seq_to_set();
}

/// A destination cell whose neighbours inside the grid are all blocks, and
/// which is the grid's only destination, cannot be reached from the start
/// cell: every search then reports that no route exists.
pub proof fn lemma_enclosed_destination(g: Grid, start: Point, dest: Point)
    requires
        g.in_bounds(start),
        g.cell(start) == CellType::Start,
        g.in_bounds(dest),
        g.cell(dest) == CellType::Destination,
        forall|p: Point| g.in_bounds(p) && #[trigger] g.cell(p) == CellType::Destination ==> p == dest,
        forall|q: Point| g.in_bounds(q) && #[trigger] adjacent(q, dest) ==> g.cell(q) == CellType::Block,
    ensures
        !g.reachable(start),
        !g.reachable_to(start, dest),
{
    lemma_routes_agree(g, start, dest);
    assert forall|w: Seq<Point>| !g.is_route_to(start, dest, w) by {
        if g.is_route_to(start, dest, w) {
            let n = w.len() as int;
            assert(n > 1);
            assert(adjacent(w[n - 2], w[n - 1]));
            if n - 2 > 0 {
                assert(g.open_at(w[n - 2]));
            }
            assert(g.in_bounds(w[n - 2]));
        }
    }
}

} // verus!
