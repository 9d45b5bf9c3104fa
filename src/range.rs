use vstd::arithmetic::div_mod::{lemma_div_is_ordered, lemma_fundamental_div_mod, lemma_fundamental_div_mod_converse};
use vstd::prelude::*;

verus! {

/// A grid coordinate `(x, y)`.
#[derive(Clone, Copy, Debug, PartialEq, Eq, Structural)]
pub struct Point(pub usize, pub usize);

/// Whether `from <= to <= max` holds component-wise.
pub open spec fn valid_range(from: Point, to: Point, max: Point) -> bool {
    &&& from.0 <= to.0
    &&& from.1 <= to.1
    &&& to.0 <= max.0
    &&& to.1 <= max.1
}

/// Number of cells of the grid whose largest coordinate is `max`.
pub open spec fn cell_count(max: Point) -> int {
    (max.0 + 1) * (max.1 + 1)
}

/// Whether every cell of the grid has a linear index that a `usize` holds.
pub open spec fn grid_fits(max: Point) -> bool {
    cell_count(max) <= usize::MAX
}

/// Linear index of the cell `(x, y)`: rows of `max.0 + 1` cells, one after another.
pub open spec fn cell_index(x: int, y: int, max: Point) -> int {
    x + y * (max.0 + 1)
}

/// Number of columns of the region.
pub open spec fn range_width(from: Point, to: Point) -> int {
    to.0 - from.0 + 1
}

/// Number of rows of the region.
pub open spec fn range_height(from: Point, to: Point) -> int {
    to.1 - from.1 + 1
}

/// The linear indices of the inclusive rectangle `[from, to]`, in row-major order.
pub open spec fn range_cells(from: Point, to: Point, max: Point) -> Seq<int> {
    let w = range_width(from, to);
    Seq::new(
        (w * range_height(from, to)) as nat,
        |k: int| cell_index(from.0 + k % w, from.1 + k / w, max),
    )
}

/// Whether cell index `i` lies in the rectangle `[from, to]` of the grid bounded by `max`.
pub open spec fn in_rect(i: int, from: Point, to: Point, max: Point) -> bool {
    &&& 0 <= i
    &&& from.0 <= i % (max.0 + 1) <= to.0
    &&& from.1 <= i / (max.0 + 1) <= to.1
}

/// Tests `valid_range`.
pub fn is_valid_range(from: Point, to: Point, max: Point) -> (r: bool)
    ensures
        r == valid_range(from, to, max),
{
    from.0 <= to.0 && from.1 <= to.1 && to.0 <= max.0 && to.1 <= max.1
}

/// Enumerates the linear indices of a rectangular region of the grid, row by row.
#[derive(Clone, Copy, Debug)]
pub struct PointRange {
    from: Point,
    to: Point,
    max: Point,
    x: usize,
    y: usize,
}

impl View for PointRange {
    type V = Seq<int>;

    /// The indices that are still to come.
    closed spec fn view(&self) -> Seq<int> {
        let all = range_cells(self.from, self.to, self.max);
        all.subrange(self.position(), all.len() as int)
    }
}

impl PointRange {
    /// How many indices have been handed out so far.
    closed spec fn position(&self) -> int {
        (self.y - self.from.1) * range_width(self.from, self.to) + (self.x - self.from.0)
    }

    /// The largest coordinate of the grid that the region lies in.
    pub closed spec fn max_point(&self) -> Point {
        self.max
    }

    pub closed spec fn wf(&self) -> bool {
        &&& valid_range(self.from, self.to, self.max)
        &&& grid_fits(self.max)
        &&& self.from.0 <= self.x <= self.to.0
        &&& self.from.1 <= self.y <= self.to.1 + 1
        &&& self.y == self.to.1 + 1 ==> self.x == self.from.0
    }

    proof fn lemma_position(&self)
        requires
            self.wf(),
        ensures
            0 <= self.position() <= range_cells(self.from, self.to, self.max).len(),
            self.y > self.to.1 ==> self.position() == range_cells(self.from, self.to, self.max).len(),
            self.y <= self.to.1 ==> self.position() < range_cells(self.from, self.to, self.max).len(),
            self.y <= self.to.1 ==> range_cells(self.from, self.to, self.max)[self.position()]
                == cell_index(self.x as int, self.y as int, self.max),
    {
        let w = range_width(self.from, self.to);
        let h = range_height(self.from, self.to);
        let q = self.y - self.from.1;
        let r = self.x - self.from.0;
        assert(0 <= q * w) by (nonlinear_arith)
            requires
                0 <= q,
                0 < w,
        ;
        assert(range_cells(self.from, self.to, self.max).len() == w * h);
        if self.y <= self.to.1 {
            assert(q * w + r < w * h) by (nonlinear_arith)
                requires
                    0 <= q < h,
                    0 <= r < w,
            ;
            lemma_fundamental_div_mod_converse(q * w + r, w, q, r);
        } else {
            assert(q * w == w * h) by (nonlinear_arith)
                requires
                    q == h,
            ;
        }
    }

    /// Every index that remains lies in the grid, and they come in increasing order.
    pub proof fn lemma_remaining(&self)
        requires
            self.wf(),
        ensures
            self@.len() <= cell_count(self.max_point()),
            forall|k: int| 0 <= k < self@.len() ==> 0 <= #[trigger] self@[k] < cell_count(self.max_point()),
            forall|a: int, b: int| 0 <= a < b < self@.len() ==> self@[a] < self@[b],
    {
        self.lemma_position();
        lemma_range_bounds(self.from, self.to, self.max);
        lemma_range_increasing(self.from, self.to, self.max);
        let all = range_cells(self.from, self.to, self.max);
        let p = self.position();
        assert forall|k: int| 0 <= k < self@.len() implies 0 <= #[trigger] self@[k] < cell_count(self.max) by {
            assert(self@[k] == all[p + k]);
        }
        assert forall|a: int, b: int| 0 <= a < b < self@.len() implies self@[a] < self@[b] by {
            assert(self@[a] == all[p + a]);
            assert(self@[b] == all[p + b]);
        }
    }

    /// Starts at `from` and ends at `to`.
    pub fn new(from: Point, to: Point, max: Point) -> (r: PointRange)
        requires
            valid_range(from, to, max),
            grid_fits(max),
        ensures
            r.wf(),
            r.max_point() == max,
            r@ == range_cells(from, to, max),
    {
        let r = PointRange { from, to, max, x: from.0, y: from.1 };
        proof {
            assert(0 * range_width(from, to) == 0) by (nonlinear_arith);
            assert(r.position() == 0);
            r.lemma_position();
            assert(r@ =~= range_cells(from, to, max));
        }
        r
    }

    /// Hands out the next index of the region, or `None` once all were handed out.
    pub fn next(&mut self) -> (r: Option<usize>)
        requires
            old(self).wf(),
        ensures
            final(self).wf(),
            final(self).max_point() == old(self).max_point(),
            old(self)@.len() == 0 ==> r is None && final(self)@ == old(self)@,
            old(self)@.len() > 0 ==> r is Some && r->0 == old(self)@[0] && final(self)@
                == old(self)@.drop_first(),
    {
        proof {
            self.lemma_position();
        }
        if self.y > self.to.1 {
            return None;
        }
        let ghost all = range_cells(self.from, self.to, self.max);
        let ghost p = self.position();
        let ghost old_view = self@;
        proof {
            let w = self.max.0 + 1;
            assert(self.y * w <= self.max.1 * w) by (nonlinear_arith)
                requires
                    self.y <= self.max.1,
                    0 < w,
            ;
            assert(self.max.1 * w + self.max.0 + 1 == cell_count(self.max)) by (nonlinear_arith)
                requires
                    w == self.max.0 + 1,
            ;
            assert(self.max.1 + 1 <= cell_count(self.max)) by (nonlinear_arith)
                requires
                    w == self.max.0 + 1,
                    cell_count(self.max) == w * (self.max.1 + 1),
            ;
        }
        let current = self.x + self.y * (self.max.0 + 1);
        if self.x < self.to.0 {
            self.x = self.x + 1;
        } else {
            self.x = self.from.0;
            self.y = self.y + 1;
            proof {
                let w = range_width(self.from, self.to);
                let q = self.y - self.from.1;
                assert(q * w == (q - 1) * w + w) by (nonlinear_arith);
            }
        }
        proof {
            assert(self.position() == p + 1);
            self.lemma_position();
            assert(self@ =~= old_view.drop_first());
        }
        Some(current)
    }

    /// Number of indices that remain; the range is used up.
    pub fn count(self) -> (n: usize)
        requires
            self.wf(),
        ensures
            n == self@.len(),
    {
        let mut it = self;
        let mut n: usize = 0;
        proof {
            self.lemma_remaining();
        }
        loop
            invariant
                it.wf(),
                it.max_point() == self.max_point(),
                n + it@.len() == self@.len(),
                self@.len() <= cell_count(self.max_point()),
                grid_fits(self.max_point()),
            ensures
                n == self@.len(),
            decreases it@.len(),
        {
            match it.next() {
                Some(_) => {
                    n = n + 1;
                },
                None => {
                    break ;
                },
            }
        }
        n
    }
}

/// The region `[from, to]` holds `width * height` indices. The first is that of `from`, the
/// last that of `to`, and they increase strictly. Within a row each index is one more than the
/// one before; at a row boundary the column starts again at `from.0`, one row further down.
pub proof fn lemma_range_shape(from: Point, to: Point, max: Point)
    requires
        valid_range(from, to, max),
    ensures
        range_cells(from, to, max).len() == range_width(from, to) * range_height(from, to),
        range_cells(from, to, max)[0] == cell_index(from.0 as int, from.1 as int, max),
        range_cells(from, to, max).last() == cell_index(to.0 as int, to.1 as int, max),
        forall|k: int|
            0 <= k < range_cells(from, to, max).len() - 1 && (k + 1) % range_width(from, to) != 0
                ==> #[trigger] range_cells(from, to, max)[k + 1] == range_cells(from, to, max)[k]
                + 1,
        forall|k: int|
            0 <= k < range_cells(from, to, max).len() - 1 && (k + 1) % range_width(from, to) == 0
                ==> #[trigger] range_cells(from, to, max)[k + 1] == cell_index(
                from.0 as int,
                from.1 + (k + 1) / range_width(from, to),
                max,
            ),
        forall|a: int, b: int|
            0 <= a < b < range_cells(from, to, max).len() ==> range_cells(from, to, max)[a]
                < range_cells(from, to, max)[b],
{
    let cells = range_cells(from, to, max);
    let w = range_width(from, to);
    let h = range_height(from, to);
    assert(0 < w * h) by (nonlinear_arith)
        requires
            0 < w,
            0 < h,
    ;
    lemma_fundamental_div_mod_converse(0, w, 0, 0);
    assert(w * h - 1 == (h - 1) * w + (w - 1)) by (nonlinear_arith);
    lemma_fundamental_div_mod_converse(w * h - 1, w, h - 1, w - 1);
    assert forall|k: int|
        0 <= k < cells.len() - 1 && (k + 1) % w != 0 implies #[trigger] cells[k + 1] == cells[k]
        + 1 by {
        lemma_range_cell(from, to, max, k + 1);
        let q = (k + 1) / w;
        let r = (k + 1) % w;
        lemma_fundamental_div_mod_converse(k, w, q, r - 1);
    }
    assert forall|k: int|
        0 <= k < cells.len() - 1 && (k + 1) % w == 0 implies #[trigger] cells[k + 1]
        == cell_index(from.0 as int, from.1 + (k + 1) / w, max) by {
        lemma_range_cell(from, to, max, k + 1);
    }
    lemma_range_increasing(from, to, max);
}

/// The indices of the region are exactly those of the cells whose column lies in
/// `from.0..=to.0` and whose row lies in `from.1..=to.1`.
pub proof fn lemma_range_rect(from: Point, to: Point, max: Point, i: int)
    requires
        valid_range(from, to, max),
    ensures
        range_cells(from, to, max).contains(i) <==> in_rect(i, from, to, max),
{
    let cells = range_cells(from, to, max);
    let w = range_width(from, to);
    let h = range_height(from, to);
    let big_w = max.0 + 1;
    if cells.contains(i) {
        let k = choose|k: int| 0 <= k < cells.len() && cells[k] == i;
        lemma_range_cell(from, to, max, k);
        let x = from.0 + k % w;
        let y = from.1 + k / w;
        assert(i == y * big_w + x);
        lemma_fundamental_div_mod_converse(i, big_w, y, x);
    }
    if in_rect(i, from, to, max) {
        let x = i % big_w;
        let y = i / big_w;
        lemma_fundamental_div_mod(i, big_w);
        let q = y - from.1;
        let r = x - from.0;
        let k = q * w + r;
        assert(0 <= k < w * h) by (nonlinear_arith)
            requires
                0 <= q < h,
                0 <= r < w,
                k == q * w + r,
        ;
        lemma_fundamental_div_mod_converse(k, w, q, r);
        assert(big_w * y == y * big_w) by (nonlinear_arith);
        assert(cells[k] == i);
    }
}

/// Cell `k` of the region, written with quotient and remainder of the row width.
proof fn lemma_range_cell(from: Point, to: Point, max: Point, k: int)
    requires
        valid_range(from, to, max),
        0 <= k < range_cells(from, to, max).len(),
    ensures
        0 <= k % range_width(from, to) < range_width(from, to),
        0 <= k / range_width(from, to) < range_height(from, to),
        k == (k / range_width(from, to)) * range_width(from, to) + k % range_width(from, to),
{
    let w = range_width(from, to);
    let h = range_height(from, to);
    lemma_fundamental_div_mod(k, w);
    let q = k / w;
    let r = k % w;
    assert(0 <= q < h) by (nonlinear_arith)
        requires
            k == w * q + r,
            0 <= r < w,
            0 <= k < w * h,
    ;
    assert(w * q == q * w) by (nonlinear_arith);
}

proof fn lemma_range_bounds(from: Point, to: Point, max: Point)
    requires
        valid_range(from, to, max),
    ensures
        range_cells(from, to, max).len() <= cell_count(max),
        forall|k: int| 0 <= k < range_cells(from, to, max).len() ==>
            0 <= #[trigger] range_cells(from, to, max)[k] < cell_count(max),
{
    let w = range_width(from, to);
    let h = range_height(from, to);
    assert(w * h <= cell_count(max)) by (nonlinear_arith)
        requires
            0 < w <= max.0 + 1,
            0 < h <= max.1 + 1,
            cell_count(max) == (max.0 + 1) * (max.1 + 1),
    ;
    assert forall|k: int| 0 <= k < range_cells(from, to, max).len() implies
        0 <= #[trigger] range_cells(from, to, max)[k] < cell_count(max) by {
        lemma_range_cell(from, to, max, k);
        let x = from.0 + k % w;
        let y = from.1 + k / w;
        assert(0 <= y * (max.0 + 1) <= max.1 * (max.0 + 1)) by (nonlinear_arith)
            requires
                0 <= y <= max.1,
        ;
        assert(max.1 * (max.0 + 1) + max.0 + 1 == cell_count(max)) by (nonlinear_arith);
    }
}

proof fn lemma_range_increasing(from: Point, to: Point, max: Point)
    requires
        valid_range(from, to, max),
    ensures
        forall|a: int, b: int| 0 <= a < b < range_cells(from, to, max).len() ==>
            range_cells(from, to, max)[a] < range_cells(from, to, max)[b],
{
    let w = range_width(from, to);
    let big_w = max.0 + 1;
    assert forall|a: int, b: int| 0 <= a < b < range_cells(from, to, max).len() implies
        range_cells(from, to, max)[a] < range_cells(from, to, max)[b] by {
        lemma_range_cell(from, to, max, a);
        lemma_range_cell(from, to, max, b);
        lemma_div_is_ordered(a, b, w);
        let qa = a / w;
        let qb = b / w;
        let ra = a % w;
        let rb = b % w;
        if qa == qb {
            assert(ra < rb);
        } else {
            assert(qa * big_w + big_w <= qb * big_w) by (nonlinear_arith)
                requires
                    qa < qb,
                    0 < big_w,
            ;
            assert((from.1 + qa) * big_w == from.1 * big_w + qa * big_w) by (nonlinear_arith);
            assert((from.1 + qb) * big_w == from.1 * big_w + qb * big_w) by (nonlinear_arith);
        }
    }
}

} // verus!
