use vstd::prelude::*;

verus! {

/// What a single grid position holds. `Visited(n)` marks the cell as the
/// `n`-th (1-based) cell of a found path.
#[derive(Debug, Clone, Copy, PartialEq, Eq, Structural)]
pub enum CellType {
    Blank,
    Start,
    Destination,
    Block,
    Visited(u32),
}

/// A grid position: `x` is the column, `y` the row (`cells[y][x]`).
#[derive(Debug, Clone, Copy, PartialEq, Eq, Hash, PartialOrd, Ord, Structural)]
pub struct Point {
    pub x: usize,
    pub y: usize,
}

impl Point {
    pub fn as_tuple(&self) -> (r: (usize, usize))
        ensures
            r == (self.x, self.y),
    {
        (self.x, self.y)
    }
}

/// A search may step onto a cell only if it is blank or a destination.
pub open spec fn enterable(c: CellType) -> bool {
    c == CellType::Blank || c == CellType::Destination
}

/// Two points one horizontal or vertical step apart.
pub open spec fn adjacent(a: Point, b: Point) -> bool {
    (a.x == b.x && (a.y + 1 == b.y || b.y + 1 == a.y)) || (a.y == b.y && (a.x + 1 == b.x || b.x
        + 1 == a.x))
}

/// The points strictly between the two ends of a walk.
pub open spec fn inner(w: Seq<Point>) -> Seq<Point> {
    if w.len() <= 2 {
        Seq::empty()
    } else {
        w.subrange(1, w.len() - 1)
    }
}

/// The cell array with its cached dimensions. The searchable area is
/// `[0, width) x [0, height)`; every point of it has a cell (`wf`). A grid
/// built by `new` has exactly `height` rows of `width` cells; a generated
/// maze reports an area one cell smaller each way than its cell array.
pub struct Grid {
    pub cells: Vec<Vec<CellType>>,
    pub width: usize,
    pub height: usize,
}

impl Grid {
    /// Every point of the searchable area has a cell.
    pub open spec fn wf(&self) -> bool {
        &&& self.height <= self.cells@.len()
        &&& forall|y: int| 0 <= y < self.height ==> self.width <= #[trigger] self.cells@[y]@.len()
    }

    pub open spec fn in_bounds(&self, p: Point) -> bool {
        p.x < self.width && p.y < self.height
    }

    /// `p` names an element of the cell array (inside the searchable area or not).
    pub open spec fn has_cell(&self, p: Point) -> bool {
        p.y < self.cells@.len() && p.x < self.cells@[p.y as int]@.len()
    }

    pub open spec fn cell(&self, p: Point) -> CellType {
        self.cells@[p.y as int]@[p.x as int]
    }

    /// A search may step onto `p`.
    pub open spec fn open_at(&self, p: Point) -> bool {
        self.in_bounds(p) && enterable(self.cell(p))
    }

    /// A sequence of in-bounds points, each after the first one step from the
    /// one before and enterable.
    pub open spec fn is_walk(&self, w: Seq<Point>) -> bool {
        &&& w.len() >= 1
        &&& self.in_bounds(w[0])
        &&& forall|i: int| 1 <= i < w.len() ==> adjacent(w[i - 1], #[trigger] w[i]) && self.open_at(w[i])
    }

    /// A walk from `start` to a destination cell.
    pub open spec fn is_route(&self, start: Point, w: Seq<Point>) -> bool {
        self.is_walk(w) && w[0] == start && self.cell(w.last()) == CellType::Destination
    }

    /// A walk from `start` to the point `dest`.
    pub open spec fn is_route_to(&self, start: Point, dest: Point, w: Seq<Point>) -> bool {
        self.is_walk(w) && w[0] == start && w.last() == dest
    }

    pub open spec fn reachable(&self, start: Point) -> bool {
        exists|w: Seq<Point>| self.is_route(start, w)
    }

    pub open spec fn reachable_to(&self, start: Point, dest: Point) -> bool {
        exists|w: Seq<Point>| self.is_route_to(start, dest, w)
    }

    /// `path` is what lies strictly between the ends of a shortest route
    /// from `start` to a destination cell.
    pub open spec fn shortest_route_inner(&self, start: Point, path: Seq<Point>) -> bool {
        exists|w: Seq<Point>|
            #[trigger] self.is_route(start, w) && inner(w) == path && forall|v: Seq<Point>|
                self.is_route(start, v) ==> w.len() <= v.len()
    }

    /// `path` is what lies strictly between the ends of a shortest route
    /// from `start` to `dest`.
    pub open spec fn shortest_route_to_inner(&self, start: Point, dest: Point, path: Seq<Point>) -> bool {
        exists|w: Seq<Point>|
            #[trigger] self.is_route_to(start, dest, w) && inner(w) == path && forall|v: Seq<Point>|
                self.is_route_to(start, dest, v) ==> w.len() <= v.len()
    }

    /// `path` is what lies strictly between the ends of a route from `start`
    /// to a destination cell that visits no point twice and passes no other
    /// destination cell.
    pub open spec fn simple_route_inner(&self, start: Point, path: Seq<Point>) -> bool {
        &&& exists|w: Seq<Point>| #[trigger] self.is_route(start, w) && inner(w) == path && w.no_duplicates()
        &&& forall|i: int| 0 <= i < path.len() ==> self.cell(#[trigger] path[i]) != CellType::Destination
    }

    /// The in-bounds neighbour of `p` in direction `d` (0 up, 1 right,
    /// 2 down, 3 left), if there is one.
    pub open spec fn neighbor_spec(&self, p: Point, d: int) -> Option<Point> {
        if d == 0 {
            if p.y > 0 {
                Some(Point { x: p.x, y: (p.y - 1) as usize })
            } else {
                None
            }
        } else if d == 1 {
            if p.x + 1 < self.width {
                Some(Point { x: (p.x + 1) as usize, y: p.y })
            } else {
                None
            }
        } else if d == 2 {
            if p.y + 1 < self.height {
                Some(Point { x: p.x, y: (p.y + 1) as usize })
            } else {
                None
            }
        } else {
            if p.x > 0 {
                Some(Point { x: (p.x - 1) as usize, y: p.y })
            } else {
                None
            }
        }
    }

    /// `self` is `before` with the cells of `path` overwritten by
    /// `Visited(1)`, `Visited(2)`, ... in path order, and nothing else changed.
    pub open spec fn marks(&self, before: Grid, path: Seq<Point>) -> bool {
        &&& path.len() < u32::MAX
        &&& self.width == before.width
        &&& self.height == before.height
        &&& self.cells@.len() == before.cells@.len()
        &&& forall|y: int|
            0 <= y < self.cells@.len() ==> (#[trigger] self.cells@[y])@.len()
                == before.cells@[y]@.len()
        &&& forall|i: int|
            0 <= i < path.len() ==> self.cell(#[trigger] path[i]) == CellType::Visited(
                (i + 1) as u32,
            )
        &&& forall|p: Point|
            before.has_cell(p) && !path.contains(p) ==> #[trigger] self.cell(p) == before.cell(p)
    }

    /// Wraps the given rows; width and height come from their dimensions.
    pub fn new(cells: Vec<Vec<CellType>>) -> (r: Self)
        requires
            cells@.len() > 0,
            forall|y: int| 0 <= y < cells@.len() ==> #[trigger] cells@[y]@.len() == cells@[0]@.len(),
        ensures
            r.cells == cells,
            r.height == cells@.len(),
            r.width == cells@[0]@.len(),
            r.wf(),
    {
        let height = cells.len();
        let width = cells[0].len();
        Grid { cells, width, height }
    }

    /// Exchanges the cached width and height; the cells stay as they are.
    pub fn swap_dim(&mut self)
        ensures
            final(self).cells == old(self).cells,
            final(self).width == old(self).height,
            final(self).height == old(self).width,
    {
        let tmp = self.height;
        self.height = self.width;
        self.width = tmp;
    }

    pub fn is_within_bounds(&self, point: Point) -> (r: bool)
        ensures
            r == self.in_bounds(point),
    {
        point.x < self.width && point.y < self.height
    }

    pub fn neighbor(&self, p: Point, d: usize) -> (r: Option<Point>)
        requires
            self.in_bounds(p),
            d < 4,
        ensures
            r == self.neighbor_spec(p, d as int),
    {
        if d == 0 {
            if p.y > 0 {
                Some(Point { x: p.x, y: p.y - 1 })
            } else {
                None
            }
        } else if d == 1 {
            let q = Point { x: p.x + 1, y: p.y };
            if self.is_within_bounds(q) {
                Some(q)
            } else {
                None
            }
        } else if d == 2 {
            let q = Point { x: p.x, y: p.y + 1 };
            if self.is_within_bounds(q) {
                Some(q)
            } else {
                None
            }
        } else {
            if p.x > 0 {
                Some(Point { x: p.x - 1, y: p.y })
            } else {
                None
            }
        }
    }

    /// Writes `Visited(i + 1)` into the cell of `path[i]`, for each `i`.
    pub fn mark_path(&mut self, path: &Vec<Point>)
        requires
            old(self).wf(),
            forall|i: int| 0 <= i < path@.len() ==> old(self).in_bounds(#[trigger] path@[i]),
            path@.no_duplicates(),
            path@.len() < u32::MAX,
        ensures
            final(self).marks(*old(self), path@),
            final(self).wf(),
    {
        let ghost g0 = *self;
        let mut i: usize = 0;
        while i < path.len()
            invariant
                g0.wf(),
                forall|k: int| 0 <= k < path@.len() ==> g0.in_bounds(#[trigger] path@[k]),
                path@.no_duplicates(),
                path@.len() < u32::MAX,
                i <= path@.len(),
                self.marks(g0, path@.subrange(0, i as int)),
                self.wf(),
            decreases path@.len() - i,
        {
            let p = path[i];
            let ghost before = *self;
            self.cells[p.y][p.x] = CellType::Visited((i + 1) as u32);
            proof {
                let done = path@.subrange(0, i as int);
                let done2 = path@.subrange(0, i + 1);
                assert forall|k: int| 0 <= k < done2.len() implies self.cell(#[trigger] done2[k])
                    == CellType::Visited((k + 1) as u32) by {
                    if k < i {
                        assert(done2[k] == done[k]);
                        assert(path@[k] != path@[i as int]);
                    }
                }
                assert forall|q: Point| g0.has_cell(q) && !done2.contains(q) implies #[trigger] self.cell(q)
                    == g0.cell(q) by {
                    if done.contains(q) {
                        let k = choose|k: int| 0 <= k < done.len() && done[k] == q;
                        assert(done2[k] == q);
                    }
                    assert(q != done2[i as int]);
                    assert(before.cell(q) == g0.cell(q));
                    if q.y == p.y {
                        assert(q.x != p.x);
                    }
                }
            }
            i = i + 1;
        }
        proof {
            assert(path@.subrange(0, path@.len() as int) =~= path@);
        }
    }
}

/// The direction in which `q` lies from `p`, for adjacent points.
pub open spec fn direction_to(p: Point, q: Point) -> int {
    if q.y + 1 == p.y {
        0
    } else if q.x == p.x + 1 {
        1
    } else if q.y == p.y + 1 {
        2
    } else {
        3
    }
}

pub proof fn lemma_neighbor(g: Grid, p: Point, d: int)
    requires
        g.in_bounds(p),
        0 <= d < 4,
    ensures
        g.neighbor_spec(p, d) matches Some(q) ==> g.in_bounds(q) && adjacent(p, q),
{
}

/// Every in-bounds point adjacent to `p` is one of its four neighbours.
pub proof fn lemma_neighbor_cover(g: Grid, p: Point, q: Point)
    requires
        g.in_bounds(p),
        g.in_bounds(q),
        adjacent(p, q),
    ensures
        0 <= direction_to(p, q) < 4,
        g.neighbor_spec(p, direction_to(p, q)) == Some(q),
{
}

/// A non-empty prefix of a walk is a walk.
pub proof fn lemma_walk_prefix(g: Grid, w: Seq<Point>, k: int)
    requires
        g.is_walk(w),
        1 <= k <= w.len(),
    ensures
        g.is_walk(w.subrange(0, k)),
{
    let v = w.subrange(0, k);
    assert forall|i: int| 1 <= i < v.len() implies adjacent(v[i - 1], #[trigger] v[i]) && g.open_at(
        v[i],
    ) by {
        assert(v[i - 1] == w[i - 1] && v[i] == w[i]);
    }
}

} // verus!
