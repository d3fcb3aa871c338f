//! A non-empty rectangular index range in a 2-D grid.
use vstd::prelude::*;

verus! {

/// A half-open rectangle of integer cells: `start` is inclusive, `end` is
/// exclusive, and there is at least one cell.
#[derive(PartialEq, Eq, Structural, Copy, Clone, Debug)]
pub struct IndexRect {
    start_x: i32,
    start_y: i32,
    end_x: i32,
    end_y: i32,
}

impl IndexRect {
    /// The inclusive lower corner.
    pub closed spec fn spec_start(self) -> (i32, i32) {
        (self.start_x, self.start_y)
    }

    /// The exclusive upper corner.
    pub closed spec fn spec_end(self) -> (i32, i32) {
        (self.end_x, self.end_y)
    }

    /// Every rectangle that `new` builds holds at least one cell.
    pub open spec fn wf(self) -> bool {
        self.spec_start().0 < self.spec_end().0 && self.spec_start().1 < self.spec_end().1
    }

    /// Whether the cell `val` lies in the rectangle.
    pub open spec fn spec_contains(self, val: (i32, i32)) -> bool {
        &&& self.spec_start().0 <= val.0 < self.spec_end().0
        &&& self.spec_start().1 <= val.1 < self.spec_end().1
    }

    /// The number of columns (cells along x).
    pub open spec fn width(self) -> int {
        self.spec_end().0 - self.spec_start().0
    }

    /// The number of cells along y.
    pub open spec fn height(self) -> int {
        self.spec_end().1 - self.spec_start().1
    }

    /// The number of cells.
    pub open spec fn count(self) -> int {
        self.width() * self.height()
    }

    /// The `k`-th cell in iteration order. The order is row-major in the
    /// pair `(x, y)`: `x` changes slowest and `y` runs fastest.
    pub open spec fn cell(self, k: int) -> (i32, i32) {
        (
            (self.spec_start().0 + k / self.height()) as i32,
            (self.spec_start().1 + k % self.height()) as i32,
        )
    }

    /// The position of a cell of the rectangle in iteration order.
    pub open spec fn position(self, val: (i32, i32)) -> int {
        (val.0 - self.spec_start().0) * self.height() + (val.1 - self.spec_start().1)
    }

    /// Builds the rectangle from `start` (inclusive) to `end` (exclusive).
    pub fn new(start: (i32, i32), end: (i32, i32)) -> (r: IndexRect)
        requires
            start.0 < end.0,
            start.1 < end.1,
        ensures
            r.spec_start() == start,
            r.spec_end() == end,
            r.wf(),
    {
        IndexRect { start_x: start.0, start_y: start.1, end_x: end.0, end_y: end.1 }
    }

    /// The rectangle that covers the cells from `start` up to the exclusive
    /// corner `end`, widened along each axis where that would leave it
    /// empty: its upper corner is `max(end, start + 1)`.
    pub fn covering(start: (i32, i32), end: (i32, i32)) -> (r: IndexRect)
        requires
            start.0 < i32::MAX,
            start.1 < i32::MAX,
        ensures
            r.spec_start() == start,
            end.0 > start.0 ==> r.spec_end().0 == end.0,
            end.0 <= start.0 ==> r.spec_end().0 == start.0 + 1,
            end.1 > start.1 ==> r.spec_end().1 == end.1,
            end.1 <= start.1 ==> r.spec_end().1 == start.1 + 1,
            r.wf(),
    {
        let end_x: i32 = if end.0 > start.0 { end.0 } else { start.0 + 1 };
        let end_y: i32 = if end.1 > start.1 { end.1 } else { start.1 + 1 };
        IndexRect::new(start, (end_x, end_y))
    }

    /// The inclusive lower corner.
    pub fn start(self) -> (r: (i32, i32))
        ensures
            r == self.spec_start(),
    {
        (self.start_x, self.start_y)
    }

    /// The exclusive upper corner.
    pub fn end(self) -> (r: (i32, i32))
        ensures
            r == self.spec_end(),
    {
        (self.end_x, self.end_y)
    }

    /// An iterator over the cells of the rectangle.
    pub fn iter(self) -> (r: Iter)
        ensures
            r.spec_rect() == self,
            r.spec_val() is None,
    {
        Iter::new(self)
    }

    /// Whether the cell `val` lies in the rectangle.
    pub fn contains(self, val: (i32, i32)) -> (r: bool)
        ensures
            r == self.spec_contains(val),
    {
        val.0 >= self.start_x && val.0 < self.end_x && val.1 >= self.start_y && val.1 < self.end_y
    }
}

/// Walks the cells of an [`IndexRect`] in row-major order of `(x, y)`. It holds the cell it
/// handed out last. From a fresh iterator, and again from one that has just
/// reported the end, `next` starts at the rectangle's lower corner.
pub struct Iter {
    rect: IndexRect,
    val: Option<(i32, i32)>,
}

impl Iter {
    /// The rectangle that is walked.
    pub closed spec fn spec_rect(self) -> IndexRect {
        self.rect
    }

    /// The cell handed out last, `None` before the first and after the
    /// last.
    pub closed spec fn spec_val(self) -> Option<(i32, i32)> {
        self.val
    }

    /// The iterator walks a non-empty rectangle and rests inside it.
    pub open spec fn wf(self) -> bool {
        &&& self.spec_rect().wf()
        &&& match self.spec_val() {
            Some(v) => self.spec_rect().spec_contains(v),
            None => true,
        }
    }

    /// What `next` hands out, as a function of the rectangle and of the
    /// cell handed out before.
    pub open spec fn successor(rect: IndexRect, val: Option<(i32, i32)>) -> Option<(i32, i32)> {
        match val {
            Some((x, y)) => {
                if y == rect.spec_end().1 - 1 {
                    if x == rect.spec_end().0 - 1 {
                        None
                    } else {
                        Some(((x + 1) as i32, rect.spec_start().1))
                    }
                } else {
                    Some((x, (y + 1) as i32))
                }
            },
            None => Some(rect.spec_start()),
        }
    }

    /// A fresh iterator over `rect`.
    pub fn new(rect: IndexRect) -> (r: Iter)
        ensures
            r.spec_rect() == rect,
            r.spec_val() is None,
    {
        Iter { rect, val: None }
    }

    /// Steps to the next cell and returns it, or `None` after the last.
    pub fn next(&mut self) -> (r: Option<(i32, i32)>)
        requires
            old(self).wf(),
        ensures
            final(self).wf(),
            final(self).spec_rect() == old(self).spec_rect(),
            final(self).spec_val() == r,
            r == Iter::successor(old(self).spec_rect(), old(self).spec_val()),
    {
        self.val = match self.val {
            Some((x, y)) => {
                if y == self.rect.end_y - 1 {
                    if x == self.rect.end_x - 1 {
                        None
                    } else {
                        Some((x + 1, self.rect.start_y))
                    }
                } else {
                    Some((x, y + 1))
                }
            },
            None => Some((self.rect.start_x, self.rect.start_y)),
        };
        self.val
    }
}

/// Iteration order and membership: `cell` and `position` are inverse to each
/// other between the positions `0..count` and the cells of the rectangle.
pub proof fn lemma_cell_position(rect: IndexRect, k: int)
    requires
        rect.wf(),
        0 <= k < rect.count(),
    ensures
        rect.spec_contains(rect.cell(k)),
        rect.position(rect.cell(k)) == k,
{
    let h = rect.height();
    let w = rect.width();
    assert(0 <= k / h < w && 0 <= k % h < h && k == h * (k / h) + k % h) by (nonlinear_arith)
        requires
            0 <= k < w * h,
            h > 0,
            w > 0,
    ;
    assert((k / h) * h == h * (k / h)) by (nonlinear_arith);
}

/// Every cell of the rectangle has a position below `count`, and `cell`
/// finds it again there.
pub proof fn lemma_position_cell(rect: IndexRect, val: (i32, i32))
    requires
        rect.wf(),
        rect.spec_contains(val),
    ensures
        0 <= rect.position(val) < rect.count(),
        rect.cell(rect.position(val)) == val,
{
    let h = rect.height();
    let w = rect.width();
    let dx = val.0 - rect.spec_start().0;
    let dy = val.1 - rect.spec_start().1;
    assert(0 <= dx * h + dy < w * h && (dx * h + dy) / h == dx && (dx * h + dy) % h == dy)
        by (nonlinear_arith)
        requires
            0 <= dx < w,
            0 <= dy < h,
    ;
}

/// The walk visits the cells in position order: the first step yields
/// position zero, each later step the next position, and the step after the
/// last position yields `None`.
pub proof fn lemma_successor(rect: IndexRect, val: Option<(i32, i32)>)
    requires
        rect.wf(),
        val matches Some(v) ==> rect.spec_contains(v),
    ensures
        val is None ==> Iter::successor(rect, val) == Some(rect.cell(0)),
        val matches Some(v) ==> (if rect.position(v) + 1 < rect.count() {
            Iter::successor(rect, val) == Some(rect.cell(rect.position(v) + 1))
        } else {
            Iter::successor(rect, val) is None
        }),
{
    let h = rect.height();
    let w = rect.width();
    match val {
        None => {
            assert(0int / h == 0 && 0int % h == 0) by (nonlinear_arith)
                requires
                    h > 0,
            ;
        },
        Some(v) => {
            let dx = v.0 - rect.spec_start().0;
            let dy = v.1 - rect.spec_start().1;
            let p = rect.position(v);
            assert(p == dx * h + dy);
            if dy == h - 1 {
                assert(p + 1 == (dx + 1) * h) by (nonlinear_arith)
                    requires
                        p == dx * h + dy,
                        dy == h - 1,
                ;
                if dx == w - 1 {
                    assert(p + 1 == w * h) by (nonlinear_arith)
                        requires
                            p + 1 == (dx + 1) * h,
                            dx == w - 1,
                    ;
                } else {
                    assert(p + 1 < w * h && (p + 1) / h == dx + 1 && (p + 1) % h == 0)
                        by (nonlinear_arith)
                        requires
                            p + 1 == (dx + 1) * h,
                            0 <= dx < w - 1,
                            h > 0,
                    ;
                }
            } else {
                assert(p + 1 < w * h && (p + 1) / h == dx && (p + 1) % h == dy + 1)
                    by (nonlinear_arith)
                    requires
                        p == dx * h + dy,
                        0 <= dx < w,
                        0 <= dy < h - 1,
                ;
            }
        },
    }
}

} // verus!
