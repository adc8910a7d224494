use vstd::prelude::*;

use crate::canvas::Canvas;
use crate::line::{line_pixels, lemma_horizontal_line, row_span};

verus! {

/// A vertex in screen space, in whole pixels.
#[derive(Clone, Copy, Debug, PartialEq, Eq, Structural)]
pub struct ScreenPoint {
    pub x: i32,
    pub y: i32,
}

/// Three screen-space vertices; their order is the winding order.
#[derive(Clone, Copy, Debug, PartialEq, Eq, Structural)]
pub struct ScreenTriangle(pub ScreenPoint, pub ScreenPoint, pub ScreenPoint);

/// `n / d` rounded toward zero, for `d > 0`.
pub open spec fn trunc_div(n: int, d: int) -> int {
    if n >= 0 {
        n / d
    } else {
        -((-n) / d)
    }
}

/// The column where the edge from `p` to `q` (with `q.y > p.y`) crosses row
/// `y`, interpolated exactly and then truncated toward zero.
pub open spec fn edge_x(p: ScreenPoint, q: ScreenPoint, y: int) -> int {
    trunc_div(p.x * (q.y - p.y) + (y - p.y) * (q.x - p.x), q.y - p.y)
}

/// The rows `lo <= y < hi`, each filled between the crossings of the edges
/// `e1` and `e2` with row `y + shift`.
pub open spec fn span_rows(
    e1: (ScreenPoint, ScreenPoint),
    e2: (ScreenPoint, ScreenPoint),
    lo: int,
    hi: int,
    shift: int,
) -> Set<(int, int)> {
    Set::new(
        |q: (int, int)|
            lo <= q.1 < hi && row_span(
                q.1,
                edge_x(e1.0, e1.1, q.1 + shift),
                edge_x(e2.0, e2.1, q.1 + shift),
            ).contains(q),
    )
}

/// Rows from the apex down to (not including) the row of `p1`, between the
/// edges from the apex to `p1` and to `p2`.
pub open spec fn flat_bottom_pixels(apex: ScreenPoint, p1: ScreenPoint, p2: ScreenPoint) -> Set<(int, int)> {
    span_rows((apex, p1), (apex, p2), apex.y as int, p1.y as int, 0)
}

/// Rows from the row of `q1` down to (not including) the row of `bottom`,
/// between the edges from `q1` and from `q2` to `bottom`, each taken where it
/// crosses the row below.
pub open spec fn flat_top_pixels(q1: ScreenPoint, q2: ScreenPoint, bottom: ScreenPoint) -> Set<(int, int)> {
    span_rows((q1, bottom), (q2, bottom), q1.y as int, bottom.y as int, 1)
}

impl ScreenTriangle {
    /// The vertices ordered by ascending `y` through three compare-and-swap
    /// steps (first/second, first/third, second/third); equal rows keep their
    /// order.
    pub open spec fn sorted_spec(self) -> ScreenTriangle {
        let (a, b) = if self.0.y > self.1.y {
            (self.1, self.0)
        } else {
            (self.0, self.1)
        };
        let (a, c) = if a.y > self.2.y {
            (self.2, a)
        } else {
            (a, self.2)
        };
        let (b, c) = if b.y > c.y {
            (c, b)
        } else {
            (b, c)
        };
        ScreenTriangle(a, b, c)
    }

    /// The pixels that a scanline fill of the triangle covers: a triangle
    /// with a flat bottom or a flat top is filled as one piece, any other is
    /// cut at the row of its middle vertex.
    pub open spec fn fill_pixels(self) -> Set<(int, int)> {
        let s = self.sorted_spec();
        if s.1.y == s.2.y {
            flat_bottom_pixels(s.0, s.1, s.2)
        } else if s.0.y == s.1.y {
            flat_top_pixels(s.0, s.1, s.2)
        } else {
            flat_bottom_pixels(s.0, s.1, s.2).union(flat_top_pixels(s.1, s.0, s.2))
        }
    }

    /// The pixels of the three edges.
    pub open spec fn outline_pixels(self) -> Set<(int, int)> {
        line_pixels(self.0.x as int, self.0.y as int, self.1.x as int, self.1.y as int).union(
            line_pixels(self.1.x as int, self.1.y as int, self.2.x as int, self.2.y as int),
        ).union(line_pixels(self.2.x as int, self.2.y as int, self.0.x as int, self.0.y as int))
    }
}

fn swap<T: Copy>(n1: &mut T, n2: &mut T)
    ensures
        *final(n1) == *old(n2),
        *final(n2) == *old(n1),
{
    let t = *n1;
    *n1 = *n2;
    *n2 = t;
}

proof fn lemma_div_between(n: int, d: int, lo: int, hi: int)
    requires
        n >= 0,
        d > 0,
        lo * d <= n <= hi * d,
    ensures
        lo <= n / d <= hi,
{
    let q = n / d;
    let r = n % d;
    assert(n == d * q + r && 0 <= r < d) by {
        vstd::arithmetic::div_mod::lemma_fundamental_div_mod(n, d);
    }
    assert(lo <= q) by (nonlinear_arith)
        requires
            lo * d <= d * q + r,
            0 <= r < d,
            d > 0,
    ;
    assert(q <= hi) by (nonlinear_arith)
        requires
            d * q + r <= hi * d,
            0 <= r,
            d > 0,
    ;
}

/// An edge crosses every row between its endpoints at a column between theirs.
proof fn lemma_edge_between(p: ScreenPoint, q: ScreenPoint, y: int)
    requires
        p.y <= y <= q.y,
        p.y < q.y,
    ensures
        p.x <= q.x ==> p.x <= edge_x(p, q, y) <= q.x,
        q.x <= p.x ==> q.x <= edge_x(p, q, y) <= p.x,
{
    let d = q.y - p.y;
    let t = y - p.y;
    let n = p.x * d + t * (q.x - p.x);
    let lo = if p.x <= q.x { p.x as int } else { q.x as int };
    let hi = if p.x <= q.x { q.x as int } else { p.x as int };
    assert(lo * d <= n <= hi * d) by (nonlinear_arith)
        requires
            0 <= t <= d,
            n == p.x * d + t * (q.x - p.x),
            lo == (if p.x <= q.x { p.x as int } else { q.x as int }),
            hi == (if p.x <= q.x { q.x as int } else { p.x as int }),
    ;
    if n >= 0 {
        lemma_div_between(n, d, lo, hi);
    } else {
        assert((-hi) * d == -(hi * d) && (-lo) * d == -(lo * d)) by (nonlinear_arith);
        lemma_div_between(-n, d, -hi, -lo);
    }
}

/// The column where the edge from `p` to `q` crosses row `y`.
fn edge_crossing(p: ScreenPoint, q: ScreenPoint, y: i64) -> (r: i64)
    requires
        p.y <= y <= q.y,
        p.y < q.y,
    ensures
        r == edge_x(p, q, y as int),
        p.x <= q.x ==> p.x <= r <= q.x,
        q.x <= p.x ==> q.x <= r <= p.x,
{
    proof {
        lemma_edge_between(p, q, y as int);
    }
    let d: i128 = q.y as i128 - p.y as i128;
    let t: i128 = y as i128 - p.y as i128;
    assert(-0x1_0000_0000 * 0x1_0000_0000 <= t * (q.x - p.x) <= 0x1_0000_0000 * 0x1_0000_0000) by (nonlinear_arith)
        requires
            0 <= t <= 0x1_0000_0000,
            -0x1_0000_0000 <= q.x - p.x <= 0x1_0000_0000,
    ;
    assert(-0x1_0000_0000 * 0x1_0000_0000 <= p.x * d <= 0x1_0000_0000 * 0x1_0000_0000) by (nonlinear_arith)
        requires
            0 <= d <= 0x1_0000_0000,
            -0x8000_0000 <= p.x < 0x8000_0000,
    ;
    let n: i128 = p.x as i128 * d + t * (q.x as i128 - p.x as i128);
    if n >= 0 {
        (n / d) as i64
    } else {
        -((-n) / d) as i64
    }
}

impl ScreenTriangle {
    /// The vertices reordered by ascending `y`, by three compare-and-swap steps.
    pub fn sorted_by_y(&self) -> (r: ScreenTriangle)
        ensures
            r == self.sorted_spec(),
            r.0.y <= r.1.y <= r.2.y,
    {
        let mut a = self.0;
        let mut b = self.1;
        let mut c = self.2;
        if a.y > b.y {
            swap(&mut a, &mut b);
        }
        if a.y > c.y {
            swap(&mut a, &mut c);
        }
        if b.y > c.y {
            swap(&mut b, &mut c);
        }
        ScreenTriangle(a, b, c)
    }
}

/// The filled pixels do not depend on the order in which the vertices are
/// given: rotating them, or exchanging the first two, fills the same set.
pub proof fn lemma_fill_order_free(t: ScreenTriangle)
    ensures
        ScreenTriangle(t.1, t.2, t.0).fill_pixels() == t.fill_pixels(),
        ScreenTriangle(t.1, t.0, t.2).fill_pixels() == t.fill_pixels(),
{
    let r = ScreenTriangle(t.1, t.2, t.0);
    let x = ScreenTriangle(t.1, t.0, t.2);
    assert(r.fill_pixels() =~= t.fill_pixels());
    assert(x.fill_pixels() =~= t.fill_pixels());
}

impl Canvas {
    /// Fills the rows from `apex` down to the row of `p1`, between the edges
    /// from `apex` to `p1` and to `p2`.
    fn fill_flat_bottom_triangle(&mut self, apex: ScreenPoint, p1: ScreenPoint, p2: ScreenPoint, color: u32)
        requires
            old(self).wf(),
            apex.y <= p1.y <= p2.y,
        ensures
            final(self).wf(),
            final(self).same_shape(old(self)),
            final(self).buffer@ == old(self).painted(flat_bottom_pixels(apex, p1, p2), color),
    {
        let ghost c0 = *old(self);
        let ghost e1 = (apex, p1);
        let ghost e2 = (apex, p2);
        let mut y: i64 = apex.y as i64;
        proof {
            c0.lemma_painted_empty(color);
            assert(span_rows(e1, e2, apex.y as int, y as int, 0) =~= Set::empty());
        }
        while y < p1.y as i64
            invariant
                apex.y <= y <= p1.y <= p2.y,
                self.wf(),
                self.same_shape(&c0),
                self.buffer@ == c0.painted(span_rows(e1, e2, apex.y as int, y as int, 0), color),
                c0 == *old(self),
                e1 == (apex, p1),
                e2 == (apex, p2),
            decreases p1.y - y,
        {
            let xl = edge_crossing(apex, p1, y);
            let xr = edge_crossing(apex, p2, y);
            let ghost before = *self;
            self.draw_line(xl, y, xr, y, color);
            proof {
                lemma_horizontal_line(xl as int, xr as int, y as int);
                Canvas::lemma_painted_union(
                    &c0,
                    &before,
                    span_rows(e1, e2, apex.y as int, y as int, 0),
                    row_span(y as int, xl as int, xr as int),
                    color,
                );
                assert(span_rows(e1, e2, apex.y as int, y + 1, 0) =~= span_rows(e1, e2, apex.y as int, y as int, 0).union(
                    row_span(y as int, xl as int, xr as int),
                ));
            }
            y = y + 1;
        }
    }

    /// Fills the rows from the row of `q1` down to (not including) the row of
    /// `bottom`, walking upward from `bottom`, between the edges from `q1` and
    /// from `q2` to `bottom`.
    fn fill_flat_top_triangle(&mut self, q1: ScreenPoint, q2: ScreenPoint, bottom: ScreenPoint, color: u32)
        requires
            old(self).wf(),
            q2.y <= q1.y <= bottom.y,
        ensures
            final(self).wf(),
            final(self).same_shape(old(self)),
            final(self).buffer@ == old(self).painted(flat_top_pixels(q1, q2, bottom), color),
    {
        let ghost c0 = *old(self);
        let ghost e1 = (q1, bottom);
        let ghost e2 = (q2, bottom);
        let mut y: i64 = bottom.y as i64;
        proof {
            c0.lemma_painted_empty(color);
            assert(span_rows(e1, e2, y as int, bottom.y as int, 1) =~= Set::empty());
        }
        while y > q1.y as i64
            invariant
                q2.y <= q1.y <= y <= bottom.y,
                self.wf(),
                self.same_shape(&c0),
                self.buffer@ == c0.painted(span_rows(e1, e2, y as int, bottom.y as int, 1), color),
                c0 == *old(self),
                e1 == (q1, bottom),
                e2 == (q2, bottom),
            decreases y - q1.y,
        {
            y = y - 1;
            let xl = edge_crossing(q1, bottom, y + 1);
            let xr = edge_crossing(q2, bottom, y + 1);
            let ghost before = *self;
            self.draw_line(xl, y, xr, y, color);
            proof {
                lemma_horizontal_line(xl as int, xr as int, y as int);
                Canvas::lemma_painted_union(
                    &c0,
                    &before,
                    span_rows(e1, e2, y + 1, bottom.y as int, 1),
                    row_span(y as int, xl as int, xr as int),
                    color,
                );
                assert(span_rows(e1, e2, y as int, bottom.y as int, 1) =~= span_rows(e1, e2, y + 1, bottom.y as int, 1).union(
                    row_span(y as int, xl as int, xr as int),
                ));
            }
        }
    }

    /// Fills the triangle scanline by scanline: its vertices are sorted by
    /// row, and a triangle with neither a flat top nor a flat bottom is cut at
    /// the row of its middle vertex into two that have one. A triangle of no
    /// height fills nothing.
    pub fn fill_triangle(&mut self, tri: ScreenTriangle, color: u32)
        requires
            old(self).wf(),
        ensures
            final(self).wf(),
            final(self).same_shape(old(self)),
            final(self).buffer@ == old(self).painted(tri.fill_pixels(), color),
    {
        let s = tri.sorted_by_y();
        if s.1.y == s.2.y {
            self.fill_flat_bottom_triangle(s.0, s.1, s.2, color);
        } else if s.0.y == s.1.y {
            self.fill_flat_top_triangle(s.0, s.1, s.2, color);
        } else {
            let ghost c0 = *old(self);
            self.fill_flat_bottom_triangle(s.0, s.1, s.2, color);
            let ghost mid = *self;
            self.fill_flat_top_triangle(s.1, s.0, s.2, color);
            proof {
                Canvas::lemma_painted_union(
                    &c0,
                    &mid,
                    flat_bottom_pixels(s.0, s.1, s.2),
                    flat_top_pixels(s.1, s.0, s.2),
                    color,
                );
            }
        }
    }

    /// Draws the three edges of the triangle, without filling it.
    pub fn draw_triangle(&mut self, tri: ScreenTriangle, color: u32)
        requires
            old(self).wf(),
        ensures
            final(self).wf(),
            final(self).same_shape(old(self)),
            final(self).buffer@ == old(self).painted(tri.outline_pixels(), color),
    {
        let ghost c0 = *old(self);
        let (a, b, c) = (tri.0, tri.1, tri.2);
        let ghost l0 = line_pixels(a.x as int, a.y as int, b.x as int, b.y as int);
        let ghost l1 = line_pixels(b.x as int, b.y as int, c.x as int, c.y as int);
        let ghost l2 = line_pixels(c.x as int, c.y as int, a.x as int, a.y as int);
        self.draw_line(a.x as i64, a.y as i64, b.x as i64, b.y as i64, color);
        let ghost c1 = *self;
        self.draw_line(b.x as i64, b.y as i64, c.x as i64, c.y as i64, color);
        proof {
            Canvas::lemma_painted_union(&c0, &c1, l0, l1, color);
        }
        let ghost c2 = *self;
        self.draw_line(c.x as i64, c.y as i64, a.x as i64, a.y as i64, color);
        proof {
            Canvas::lemma_painted_union(&c0, &c2, l0.union(l1), l2, color);
        }
    }
}

} // verus!
