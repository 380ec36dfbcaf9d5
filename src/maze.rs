use vstd::prelude::*;
use rand::rngs::StdRng;
use rand::Rng;
use crate::grid::{CellType, Grid, Point};
use crate::matrix::{entry, is_matrix, set_entry};

verus! {

/// rand's `StdRng`, the seeded generator a maze is drawn with; Verus sees
/// nothing inside it.
#[verifier::external_type_specification]
#[verifier::external_body]
pub struct ExStdRng(StdRng);

/// Relies on rand's `Rng::gen_range` over the half-open range `lo..hi`: the
/// value drawn lies in the range (an empty range would panic).
#[verifier::external_body]
fn gen_index(rng: &mut StdRng, lo: usize, hi: usize) -> (r: usize)
    requires
        lo < hi,
    ensures
        lo <= r < hi,
{
    rng.gen_range(lo..hi)
}

/// `p` lies inside a `w` by `h` rectangle.
pub open spec fn in_rect(w: int, h: int, p: Point) -> bool {
    p.x < w && p.y < h
}

/// `p` lies inside a `w` by `h` rectangle, off its one-cell border.
pub open spec fn interior(w: int, h: int, p: Point) -> bool {
    1 <= p.x && p.x + 1 < w && 1 <= p.y && p.y + 1 < h
}

/// The interior points whose cell is a block.
pub open spec fn interior_blocks(cells: Seq<Vec<CellType>>, w: int, h: int) -> Set<Point> {
    Set::new(|p: Point| interior(w, h, p) && entry(cells, p) == CellType::Block)
}

/// Exactly one point of the rectangle holds `c`, and it is an interior one.
pub open spec fn one_interior(cells: Seq<Vec<CellType>>, w: int, h: int, c: CellType) -> bool {
    exists|s: Point|
        interior(w, h, s) && #[trigger] entry(cells, s) == c && forall|p: Point|
            in_rect(w, h, p) && entry(cells, p) == c ==> p == s
}

/// `pool` lists, once each, exactly the interior points whose cell is blank.
pub open spec fn pool_ok(cells: Seq<Vec<CellType>>, w: int, h: int, pool: Seq<Point>) -> bool {
    &&& pool.no_duplicates()
    &&& forall|i: int|
        0 <= i < pool.len() ==> interior(w, h, #[trigger] pool[i]) && entry(cells, pool[i]) == CellType::Blank
    &&& forall|p: Point| interior(w, h, p) && #[trigger] entry(cells, p) == CellType::Blank ==> pool.contains(p)
}

/// Takes a uniformly drawn point off the pool.
fn take_from_pool(pool: &mut Vec<Point>, rng: &mut StdRng) -> (r: Point)
    requires
        old(pool)@.len() > 0,
        old(pool)@.no_duplicates(),
    ensures
        old(pool)@.contains(r),
        final(pool)@.len() == old(pool)@.len() - 1,
        final(pool)@.no_duplicates(),
        forall|x: Point| #[trigger] final(pool)@.contains(x) <==> (old(pool)@.contains(x) && x != r),
{
    let ghost p0 = pool@;
    let k = gen_index(rng, 0, pool.len());
    let r = pool.swap_remove(k);
    proof {
        let n = p0.len() - 1;
        let p1 = pool@;
        assert(p0[k as int] == r);
        assert forall|i: int| 0 <= i < p1.len() implies #[trigger] p1[i] == if i == k {
            p0[n]
        } else {
            p0[i]
        } by {
        }
        assert forall|i: int, j: int| 0 <= i < p1.len() && 0 <= j < p1.len() && i != j implies p1[i] != p1[j] by {
            let a = if i == k { n } else { i };
            let b = if j == k { n } else { j };
            assert(p1[i] == p0[a] && p1[j] == p0[b]);
        }
        assert forall|x: Point| #[trigger] p1.contains(x) <==> (p0.contains(x) && x != r) by {
            if p1.contains(x) {
                let i = choose|i: int| 0 <= i < p1.len() && p1[i] == x;
                let a = if i == k { n } else { i };
                assert(p0[a] == x);
                assert(a != k);
            }
            if p0.contains(x) && x != r {
                let i = choose|i: int| 0 <= i < p0.len() && p0[i] == x;
                assert(i != k);
                if i == n {
                    assert(p1[k as int] == x);
                } else {
                    assert(p1[i] == x);
                }
            }
        }
    }
    r
}

/// Writing a non-blank cell at a point just taken off the pool keeps the
/// pool exact.
proof fn lemma_pool_take(
    c0: Seq<Vec<CellType>>,
    c1: Seq<Vec<CellType>>,
    w: int,
    h: int,
    pool0: Seq<Point>,
    pool1: Seq<Point>,
    r: Point,
    v: CellType,
)
    requires
        pool_ok(c0, w, h, pool0),
        pool0.contains(r),
        pool1.no_duplicates(),
        forall|x: Point| #[trigger] pool1.contains(x) <==> (pool0.contains(x) && x != r),
        v != CellType::Blank,
        is_matrix(c0, w, h),
        forall|p: Point| in_rect(w, h, p) ==> #[trigger] entry(c1, p) == if p == r {
            v
        } else {
            entry(c0, p)
        },
    ensures
        pool_ok(c1, w, h, pool1),
{
    assert forall|i: int| 0 <= i < pool1.len() implies interior(w, h, #[trigger] pool1[i]) && entry(c1, pool1[i])
        == CellType::Blank by {
        assert(pool1.contains(pool1[i]));
        let j = choose|j: int| 0 <= j < pool0.len() && pool0[j] == pool1[i];
    }
    assert forall|p: Point| interior(w, h, p) && #[trigger] entry(c1, p) == CellType::Blank implies pool1.contains(p) by {
        assert(p != r);
        assert(entry(c0, p) == CellType::Blank);
    }
}

impl Grid {
    /// A random maze of `height` rows of `width` cells. The border cells are
    /// blocks; a start, a destination and then a number of blocks drawn from
    /// `[1, (width - 2) * (height - 2) / 2)` go on distinct interior cells,
    /// each drawn uniformly among the interior cells still blank; the other
    /// interior cells are blank. The grid reports its width and height as
    /// `width - 1` and `height - 1`.
    pub fn random_grid(width: usize, height: usize, rng: &mut StdRng) -> (r: Grid)
        requires
            width >= 3,
            height >= 3,
            (width - 2) * (height - 2) >= 4,
            width * height <= usize::MAX,
        ensures
            is_matrix(r.cells@, width as int, height as int),
            r.width == width - 1,
            r.height == height - 1,
            r.wf(),
            forall|p: Point|
                in_rect(width as int, height as int, p) && !interior(width as int, height as int, p)
                    ==> #[trigger] entry(r.cells@, p) == CellType::Block,
            forall|p: Point| in_rect(width as int, height as int, p) ==> !(#[trigger] entry(r.cells@, p) is Visited),
            one_interior(r.cells@, width as int, height as int, CellType::Start),
            one_interior(r.cells@, width as int, height as int, CellType::Destination),
            interior_blocks(r.cells@, width as int, height as int).finite(),
            1 <= interior_blocks(r.cells@, width as int, height as int).len(),
            2 * interior_blocks(r.cells@, width as int, height as int).len() < (width - 2) * (height - 2),
    {
        let ghost w = width as int;
        let ghost h = height as int;
        let mut cells: Vec<Vec<CellType>> = Vec::new();
        let mut y: usize = 0;
        while y < height
            invariant
                w == width,
                h == height,
                y <= height,
                cells@.len() == y,
                forall|j: int| 0 <= j < y ==> (#[trigger] cells@[j])@.len() == width,
                forall|p: Point|
                    p.y < y && p.x < width ==> #[trigger] entry(cells@, p) == if interior(w, h, p) {
                        CellType::Blank
                    } else {
                        CellType::Block
                    },
            decreases height - y,
        {
            let mut row: Vec<CellType> = Vec::new();
            let mut x: usize = 0;
            while x < width
                invariant
                    w == width,
                    h == height,
                    y < height,
                    x <= width,
                    row@.len() == x,
                    forall|i: int|
                        0 <= i < x ==> #[trigger] row@[i] == if interior(
                            w,
                            h,
                            Point { x: i as usize, y: y },
                        ) {
                            CellType::Blank
                        } else {
                            CellType::Block
                        },
                decreases width - x,
            {
                let c = if y == 0 || y + 1 == height || x == 0 || x + 1 == width {
                    CellType::Block
                } else {
                    CellType::Blank
                };
                row.push(c);
                x = x + 1;
            }
            let ghost c0 = cells@;
            cells.push(row);
            proof {
                assert forall|p: Point| p.y < y + 1 && p.x < width implies #[trigger] entry(cells@, p) == if interior(
                    w,
                    h,
                    p,
                ) {
                    CellType::Blank
                } else {
                    CellType::Block
                } by {
                    if p.y < y {
                        assert(cells@[p.y as int] == c0[p.y as int]);
                        assert(entry(c0, p) == entry(cells@, p));
                    } else {
                        assert(cells@[y as int] == row);
                        assert(row@[p.x as int] == entry(cells@, p));
                        assert(Point { x: p.x, y: y } == p);
                    }
                }
            }
            y = y + 1;
        }
        let mut pool: Vec<Point> = Vec::new();
        let mut y: usize = 1;
        while y + 1 < height
            invariant
                w == width,
                h == height,
                1 <= y < height,
                width >= 3,
                pool@.len() == (y - 1) * (width - 2),
                forall|i: int, j: int|
                    0 <= i < j < pool@.len() ==> (#[trigger] pool@[i]).y < (#[trigger] pool@[j]).y || (
                    pool@[i].y == pool@[j].y && pool@[i].x < pool@[j].x),
                forall|i: int| 0 <= i < pool@.len() ==> interior(w, h, #[trigger] pool@[i]) && pool@[i].y < y,
                forall|p: Point| interior(w, h, p) && p.y < y ==> #[trigger] pool@.contains(p),
            decreases height - y,
        {
            let ghost base = pool@.len();
            let mut x: usize = 1;
            while x + 1 < width
                invariant
                    w == width,
                    h == height,
                    1 <= y,
                    y + 1 < height,
                    1 <= x < width,
                    pool@.len() == base + x - 1,
                    forall|i: int, j: int|
                        0 <= i < j < pool@.len() ==> (#[trigger] pool@[i]).y < (#[trigger] pool@[j]).y || (
                        pool@[i].y == pool@[j].y && pool@[i].x < pool@[j].x),
                    forall|i: int|
                        0 <= i < pool@.len() ==> interior(w, h, #[trigger] pool@[i]) && (pool@[i].y < y || (
                        pool@[i].y == y && pool@[i].x < x)),
                    forall|p: Point|
                        interior(w, h, p) && (p.y < y || (p.y == y && p.x < x)) ==> #[trigger] pool@.contains(p),
                decreases width - x,
            {
                let ghost pb = pool@;
                pool.push(Point { x, y });
                proof {
                    assert forall|p: Point|
                        interior(w, h, p) && (p.y < y || (p.y == y && p.x < x + 1)) implies #[trigger] pool@.contains(
                        p,
                    ) by {
                        if p.y == y && p.x == x {
                            assert(pool@[pool@.len() - 1] == p);
                        } else {
                            assert(pb.contains(p));
                            let i = choose|i: int| 0 <= i < pb.len() && pb[i] == p;
                            assert(pool@[i] == p);
                        }
                    }
                    assert forall|i: int, j: int| 0 <= i < j < pool@.len() implies (#[trigger] pool@[i]).y < (
                    #[trigger] pool@[j]).y || (pool@[i].y == pool@[j].y && pool@[i].x < pool@[j].x) by {
                        if j < pb.len() {
                            assert(pool@[i] == pb[i] && pool@[j] == pb[j]);
                        } else {
                            assert(pool@[i] == pb[i]);
                        }
                    }
                }
                x = x + 1;
            }
            proof {
                assert((y - 1) * (width - 2) + (width - 2) == y * (width - 2)) by (nonlinear_arith);
            }
            y = y + 1;
        }
        proof {
            assert((width - 2) * (height - 2) <= width * height) by (nonlinear_arith)
                requires
                    width >= 3,
                    height >= 3,
            ;
        }
        let total = (width - 2) * (height - 2);
        proof {
            assert((y - 1) * (width - 2) == (width - 2) * (height - 2)) by (nonlinear_arith)
                requires
                    y + 1 == height,
            ;
            assert(pool@.len() == total);
            assert forall|i: int, j: int| 0 <= i < pool@.len() && 0 <= j < pool@.len() && i != j implies pool@[i]
                != pool@[j] by {
                if i < j {
                    assert(pool@[i].y < pool@[j].y || (pool@[i].y == pool@[j].y && pool@[i].x < pool@[j].x));
                } else {
                    assert(pool@[j].y < pool@[i].y || (pool@[j].y == pool@[i].y && pool@[j].x < pool@[i].x));
                }
            }
            assert forall|p: Point| interior(w, h, p) && #[trigger] entry(cells@, p) == CellType::Blank implies pool@.contains(
                p,
            ) by {
            }
            assert(pool_ok(cells@, w, h, pool@));
        }
        // the start
        let ghost c0 = cells@;
        let ghost q0 = pool@;
        let s = take_from_pool(&mut pool, rng);
        set_entry(&mut cells, s, CellType::Start);
        proof {
            lemma_pool_take(c0, cells@, w, h, q0, pool@, s, CellType::Start);
        }
        // the destination
        let ghost c1 = cells@;
        let ghost q1 = pool@;
        let d = take_from_pool(&mut pool, rng);
        set_entry(&mut cells, d, CellType::Destination);
        proof {
            lemma_pool_take(c1, cells@, w, h, q1, pool@, d, CellType::Destination);
            assert(s != d);
            assert forall|p: Point| in_rect(w, h, p) && interior(w, h, p) implies (#[trigger] entry(cells@, p)
                == CellType::Block <==> Set::<Point>::empty().contains(p)) by {
                if p != s && p != d {
                    assert(entry(cells@, p) == entry(c0, p));
                }
            }
        }
        let blocks = gen_index(rng, 1, total / 2);
        let mut placed: usize = 0;
        let ghost mut bset: Set<Point> = Set::empty();
        while placed < blocks
            invariant
                w == width,
                h == height,
                blocks < total / 2,
                total == (width - 2) * (height - 2),
                placed <= blocks,
                pool@.len() == total - 2 - placed,
                pool_ok(cells@, w, h, pool@),
                is_matrix(cells@, w, h),
                interior(w, h, s),
                interior(w, h, d),
                forall|p: Point|
                    in_rect(w, h, p) ==> (#[trigger] entry(cells@, p) == CellType::Start <==> p == s),
                forall|p: Point|
                    in_rect(w, h, p) ==> (#[trigger] entry(cells@, p) == CellType::Destination <==> p == d),
                forall|p: Point| in_rect(w, h, p) ==> !(#[trigger] entry(cells@, p) is Visited),
                forall|p: Point|
                    in_rect(w, h, p) && !interior(w, h, p) ==> #[trigger] entry(cells@, p) == CellType::Block,
                bset.finite(),
                bset.len() == placed,
                forall|p: Point| #[trigger] bset.contains(p) ==> interior(w, h, p),
                forall|p: Point|
                    interior(w, h, p) ==> (#[trigger] entry(cells@, p) == CellType::Block <==> bset.contains(p)),
            decreases blocks - placed,
        {
            let ghost cb = cells@;
            let ghost qb = pool@;
            let b = take_from_pool(&mut pool, rng);
            set_entry(&mut cells, b, CellType::Block);
            proof {
                lemma_pool_take(cb, cells@, w, h, qb, pool@, b, CellType::Block);
                assert(entry(cb, b) == CellType::Blank);
                assert(!bset.contains(b));
                bset = bset.insert(b);
            }
            placed = placed + 1;
        }
        proof {
            assert(interior_blocks(cells@, w, h) =~= bset);
            assert(entry(cells@, s) == CellType::Start);
            assert(entry(cells@, d) == CellType::Destination);
        }
        Grid { cells, width: width - 1, height: height - 1 }
    }
}

} // verus!
