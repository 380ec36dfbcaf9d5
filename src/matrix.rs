use vstd::prelude::*;
use crate::grid::Point;

verus! {

/// The element at `p` of a row-major matrix (`m[p.y][p.x]`).
pub open spec fn entry<T>(m: Seq<Vec<T>>, p: Point) -> T {
    m[p.y as int]@[p.x as int]
}

/// `m` has `h` rows of `w` elements each.
pub open spec fn is_matrix<T>(m: Seq<Vec<T>>, w: int, h: int) -> bool {
    &&& m.len() == h
    &&& forall|y: int| 0 <= y < h ==> (#[trigger] m[y])@.len() == w
}

/// Number of `false` elements of a row.
pub open spec fn row_unset(r: Seq<bool>) -> nat
    decreases r.len(),
{
    if r.len() == 0 {
        0
    } else {
        row_unset(r.drop_last()) + if r.last() {
            0nat
        } else {
            1nat
        }
    }
}

/// Number of `false` elements of a matrix.
pub open spec fn unset(m: Seq<Vec<bool>>) -> nat
    decreases m.len(),
{
    if m.len() == 0 {
        0
    } else {
        unset(m.drop_last()) + row_unset(m.last()@)
    }
}

/// A `w` by `h` matrix with every element `v`.
pub fn new_matrix<T: Copy>(w: usize, h: usize, v: T) -> (m: Vec<Vec<T>>)
    ensures
        is_matrix(m@, w as int, h as int),
        forall|p: Point| p.x < w && p.y < h ==> #[trigger] entry(m@, p) == v,
{
    let mut m: Vec<Vec<T>> = Vec::new();
    let mut y: usize = 0;
    while y < h
        invariant
            y <= h,
            m@.len() == y,
            forall|j: int| 0 <= j < y ==> (#[trigger] m@[j])@.len() == w,
            forall|j: int, i: int| 0 <= j < y && 0 <= i < w ==> #[trigger] m@[j]@[i] == v,
        decreases h - y,
    {
        let mut row: Vec<T> = Vec::new();
        let mut x: usize = 0;
        while x < w
            invariant
                x <= w,
                row@.len() == x,
                forall|i: int| 0 <= i < x ==> #[trigger] row@[i] == v,
            decreases w - x,
        {
            row.push(v);
            x = x + 1;
        }
        m.push(row);
        y = y + 1;
    }
    proof {
        assert forall|p: Point| p.x < w && p.y < h implies #[trigger] entry(m@, p) == v by {
            assert(m@[p.y as int]@[p.x as int] == v);
        }
    }
    m
}

/// Replaces the element at `p`.
pub fn set_entry<T>(m: &mut Vec<Vec<T>>, p: Point, v: T)
    requires
        p.y < old(m)@.len(),
        p.x < old(m)@[p.y as int]@.len(),
    ensures
        final(m)@.len() == old(m)@.len(),
        forall|y: int| 0 <= y < old(m)@.len() && y != p.y ==> #[trigger] final(m)@[y] == old(m)@[y],
        final(m)@[p.y as int]@ == old(m)@[p.y as int]@.update(p.x as int, v),
        forall|y: int| 0 <= y < old(m)@.len() ==> (#[trigger] final(m)@[y])@.len() == old(m)@[y]@.len(),
        forall|q: Point|
            q.y < old(m)@.len() && q.x < old(m)@[q.y as int]@.len() ==> #[trigger] entry(final(m)@, q)
                == if q == p {
                v
            } else {
                entry(old(m)@, q)
            },
{
    m[p.y][p.x] = v;
}

pub proof fn lemma_row_unset_update(r: Seq<bool>, x: int)
    requires
        0 <= x < r.len(),
        !r[x],
    ensures
        row_unset(r.update(x, true)) + 1 == row_unset(r),
    decreases r.len(),
{
    let r2 = r.update(x, true);
    if x == r.len() - 1 {
        assert(r2.drop_last() =~= r.drop_last());
    } else {
        assert(r2.drop_last() =~= r.drop_last().update(x, true));
        lemma_row_unset_update(r.drop_last(), x);
    }
}

/// Setting one `false` element of a matrix to `true` takes one from its count.
pub proof fn lemma_unset_update(m: Seq<Vec<bool>>, m2: Seq<Vec<bool>>, p: Point)
    requires
        p.y < m.len(),
        p.x < m[p.y as int]@.len(),
        !entry(m, p),
        m2.len() == m.len(),
        forall|y: int| 0 <= y < m.len() && y != p.y ==> #[trigger] m2[y] == m[y],
        m2[p.y as int]@ == m[p.y as int]@.update(p.x as int, true),
    ensures
        unset(m2) + 1 == unset(m),
    decreases m.len(),
{
    if p.y == m.len() - 1 {
        assert(m2.drop_last() =~= m.drop_last());
        lemma_row_unset_update(m[p.y as int]@, p.x as int);
    } else {
        lemma_unset_update(m.drop_last(), m2.drop_last(), p);
        assert(m2.last() == m.last());
    }
}

proof fn lemma_row_unset_all_false(r: Seq<bool>)
    requires
        forall|i: int| 0 <= i < r.len() ==> !#[trigger] r[i],
    ensures
        row_unset(r) == r.len(),
    decreases r.len(),
{
    if r.len() > 0 {
        lemma_row_unset_all_false(r.drop_last());
    }
}

/// A matrix of `h` rows of `w` elements, all `false`, counts `w * h`.
pub proof fn lemma_unset_all_false(m: Seq<Vec<bool>>, w: int, h: int)
    requires
        0 <= w <= usize::MAX,
        0 <= h <= usize::MAX,
        is_matrix(m, w, h),
        forall|p: Point| p.x < w && p.y < h ==> !#[trigger] entry(m, p),
    ensures
        unset(m) == w * h,
    decreases h,
{
    if h > 0 {
        let m1 = m.drop_last();
        assert forall|p: Point| p.x < w && p.y < h - 1 implies !#[trigger] entry(m1, p) by {
            assert(entry(m1, p) == entry(m, p));
        }
        lemma_unset_all_false(m1, w, h - 1);
        let r = m.last()@;
        assert forall|i: int| 0 <= i < r.len() implies !#[trigger] r[i] by {
            let p = Point { x: i as usize, y: (h - 1) as usize };
            assert(entry(m, p) == r[i]);
        }
        lemma_row_unset_all_false(r);
        assert(r.len() == w);
        assert(unset(m) == unset(m1) + row_unset(r));
        assert(w * (h - 1) + w == w * h) by (nonlinear_arith);
    } else {
        assert(w * h == 0) by (nonlinear_arith) requires h == 0;
    }
}

} // verus!
