use vstd::prelude::*;

use crate::canvas::Canvas;

verus! {

/// A Bresenham walk in axis-relative terms: `a` is the major axis, along which
/// the walk advances one unit per step, `b` the minor axis, which moves by
/// `dir` whenever the decision variable says so.
pub struct Walk {
    pub a0: int,
    pub b0: int,
    pub dmaj: int,
    pub dmin: int,
    pub dir: int,
    /// The major axis is `y`; points are reported as `(b, a)`.
    pub steep: bool,
}

impl Walk {
    /// The state `(a, b, p)` after `k` steps, `p` being the decision variable.
    pub open spec fn state(self, k: nat) -> (int, int, int)
        decreases k,
    {
        if k == 0 {
            (self.a0, self.b0, 2 * self.dmin - self.dmaj)
        } else {
            let (a, b, p) = self.state((k - 1) as nat);
            let advance = if self.steep {
                p > 0
            } else {
                p >= 0
            };
            if advance {
                (a + 1, b + self.dir, p + 2 * (self.dmin - self.dmaj))
            } else {
                (a + 1, b, p + 2 * self.dmin)
            }
        }
    }

    /// The pixel visited after `k` steps.
    pub open spec fn point(self, k: nat) -> (int, int) {
        let st = self.state(k);
        if self.steep {
            (st.1, st.0)
        } else {
            (st.0, st.1)
        }
    }

    /// The pixels visited in the first `n` positions of the walk.
    pub open spec fn prefix(self, n: int) -> Set<(int, int)> {
        Set::new(|q: (int, int)| exists|j: int| 0 <= j < n && #[trigger] self.point(j as nat) == q)
    }

    /// Every pixel of the walk, both endpoints included.
    pub open spec fn pixels(self) -> Set<(int, int)> {
        self.prefix(self.dmaj + 1)
    }
}

pub open spec fn abs(v: int) -> int {
    if v < 0 {
        -v
    } else {
        v
    }
}

/// The walk that draws the line from `(x1, y1)` to `(x2, y2)`: along the axis
/// of the larger extent, from the endpoint with the smaller coordinate on it.
pub open spec fn line_walk(x1: int, y1: int, x2: int, y2: int) -> Walk {
    let dx = x2 - x1;
    let dy = y2 - y1;
    let dir = if (dx < 0 && dy < 0) || (dx > 0 && dy > 0) {
        1int
    } else {
        -1int
    };
    if abs(dy) <= abs(dx) {
        let (a0, b0) = if dx >= 0 {
            (x1, y1)
        } else {
            (x2, y2)
        };
        Walk { a0, b0, dmaj: abs(dx), dmin: abs(dy), dir, steep: false }
    } else {
        let (a0, b0) = if dy >= 0 {
            (y1, x1)
        } else {
            (y2, x2)
        };
        Walk { a0, b0, dmaj: abs(dy), dmin: abs(dx), dir, steep: true }
    }
}

/// The set of pixels that `draw_line` writes for the segment between two points.
pub open spec fn line_pixels(x1: int, y1: int, x2: int, y2: int) -> Set<(int, int)> {
    line_walk(x1, y1, x2, y2).pixels()
}

/// The major coordinate advances by one per step, the minor one by at most
/// one, and the decision variable stays within `[2*dmin - 2*dmaj, 2*dmin]`.
pub proof fn lemma_walk_bounds(w: Walk, k: nat)
    requires
        0 <= w.dmin <= w.dmaj,
        w.dir == 1 || w.dir == -1,
    ensures
        w.state(k).0 == w.a0 + k,
        w.b0 - k <= w.state(k).1 <= w.b0 + k,
        2 * w.dmin - 2 * w.dmaj <= w.state(k).2 <= 2 * w.dmin,
    decreases k,
{
    if k > 0 {
        lemma_walk_bounds(w, (k - 1) as nat);
    }
}

/// Drawing a segment from either end visits the same pixels: both directions
/// run the very same walk.
pub proof fn lemma_line_symmetric(x1: int, y1: int, x2: int, y2: int)
    ensures
        line_pixels(x1, y1, x2, y2) == line_pixels(x2, y2, x1, y1),
        line_walk(x1, y1, x2, y2) == line_walk(x2, y2, x1, y1),
{
}

/// The decision variable tracks how far the minor coordinate lags the exact
/// line: after `k` steps with `j` minor advances it is
/// `2*(k+1)*dmin - dmaj - 2*j*dmaj`.
proof fn lemma_walk_progress(w: Walk, k: nat)
    requires
        0 <= w.dmin <= w.dmaj,
        w.dir == 1 || w.dir == -1,
    ensures
        0 <= w.dir * (w.state(k).1 - w.b0) <= k,
        w.state(k).2 == 2 * (k + 1) * w.dmin - w.dmaj - 2 * (w.dir * (w.state(k).1 - w.b0)) * w.dmaj,
    decreases k,
{
    if k == 0 {
        assert(w.dir * (w.state(k).1 - w.b0) == 0);
        let z = w.dir * (w.state(k).1 - w.b0);
        assert(2 * z * w.dmaj == 0) by (nonlinear_arith)
            requires
                z == 0,
        ;
    } else {
        let k1 = (k - 1) as nat;
        lemma_walk_progress(w, k1);
        let j = w.dir * (w.state(k1).1 - w.b0);
        let j2 = w.dir * (w.state(k).1 - w.b0);
        let p = w.state(k1).2;
        let p2 = w.state(k).2;
        if w.state(k).1 == w.state(k1).1 {
            assert(j2 == j);
            assert(p2 == p + 2 * w.dmin);
            assert(p2 == 2 * (k + 1) * w.dmin - w.dmaj - 2 * j2 * w.dmaj) by (nonlinear_arith)
                requires
                    p == 2 * (k1 + 1) * w.dmin - w.dmaj - 2 * j * w.dmaj,
                    p2 == p + 2 * w.dmin,
                    j2 == j,
                    k == k1 + 1,
            ;
        } else {
            assert(w.state(k).1 == w.state(k1).1 + w.dir);
            assert(j2 == j + 1) by (nonlinear_arith)
                requires
                    j == w.dir * (w.state(k1).1 - w.b0),
                    j2 == w.dir * (w.state(k1).1 + w.dir - w.b0),
                    w.dir == 1 || w.dir == -1,
            ;
            assert(p2 == p + 2 * (w.dmin - w.dmaj));
            assert(p2 == 2 * (k + 1) * w.dmin - w.dmaj - 2 * j2 * w.dmaj) by (nonlinear_arith)
                requires
                    p == 2 * (k1 + 1) * w.dmin - w.dmaj - 2 * j * w.dmaj,
                    p2 == p + 2 * (w.dmin - w.dmaj),
                    j2 == j + 1,
                    k == k1 + 1,
            ;
        }
    }
}

/// A walk ends exactly `dmin` minor steps from where it began.
proof fn lemma_walk_end(w: Walk)
    requires
        0 <= w.dmin <= w.dmaj,
        w.dir == 1 || w.dir == -1,
    ensures
        w.state(w.dmaj as nat).1 == w.b0 + w.dir * w.dmin,
{
    let k = w.dmaj as nat;
    lemma_walk_progress(w, k);
    lemma_walk_bounds(w, k);
    let j = w.dir * (w.state(k).1 - w.b0);
    let p = w.state(k).2;
    if w.dmaj > 0 {
        assert(j == w.dmin) by (nonlinear_arith)
            requires
                p == 2 * (w.dmaj + 1) * w.dmin - w.dmaj - 2 * j * w.dmaj,
                2 * w.dmin - 2 * w.dmaj <= p <= 2 * w.dmin,
                w.dmaj > 0,
        ;
    }
    assert(w.state(k).1 == w.b0 + w.dir * w.dmin) by (nonlinear_arith)
        requires
            j == w.dir * (w.state(k).1 - w.b0),
            j == w.dmin,
            w.dir == 1 || w.dir == -1,
    ;
}

/// Both endpoints of a segment are among the pixels drawn for it.
pub proof fn lemma_line_endpoints(x1: int, y1: int, x2: int, y2: int)
    ensures
        line_pixels(x1, y1, x2, y2).contains((x1, y1)),
        line_pixels(x1, y1, x2, y2).contains((x2, y2)),
{
    let w = line_walk(x1, y1, x2, y2);
    lemma_walk_end(w);
    lemma_walk_bounds(w, w.dmaj as nat);
    let first = w.point(0int as nat);
    let last = w.point(w.dmaj as nat);
    assert(w.pixels().contains(first));
    assert(w.pixels().contains(last));
    let b_end = w.b0 + w.dir * w.dmin;
    if w.dir == 1 {
        assert(b_end == w.b0 + w.dmin);
    } else {
        assert(b_end == w.b0 - w.dmin);
    }
    assert(first == (x1, y1) || last == (x1, y1));
    assert(first == (x2, y2) || last == (x2, y2));
}

/// A walk with no minor extent never leaves its starting row.
proof fn lemma_flat_walk(w: Walk, k: nat)
    requires
        w.dmin == 0,
        w.dmaj > 0,
        !w.steep,
    ensures
        w.state(k) == (w.a0 + k, w.b0, -w.dmaj),
    decreases k,
{
    if k > 0 {
        lemma_flat_walk(w, (k - 1) as nat);
    }
}

/// The pixels of the row `y` whose column lies between `xa` and `xb`.
pub open spec fn row_span(y: int, xa: int, xb: int) -> Set<(int, int)> {
    Set::new(
        |q: (int, int)|
            q.1 == y && (if xa <= xb {
                xa <= q.0 <= xb
            } else {
                xb <= q.0 <= xa
            }),
    )
}

/// A horizontal segment covers exactly the pixels between its endpoints.
pub proof fn lemma_horizontal_line(xa: int, xb: int, y: int)
    ensures
        line_pixels(xa, y, xb, y) == row_span(y, xa, xb),
{
    let w = line_walk(xa, y, xb, y);
    let lo = if xa <= xb { xa } else { xb };
    assert(w.a0 == lo && w.b0 == y && !w.steep && w.dmin == 0);
    if w.dmaj == 0 {
        assert(w.pixels() =~= row_span(y, xa, xb)) by {
            assert(w.point(0int as nat) == (xa, y));
        }
    } else {
        assert forall|q: (int, int)| w.pixels().contains(q) implies row_span(y, xa, xb).contains(q) by {
            let j = choose|j: int| 0 <= j < w.dmaj + 1 && #[trigger] w.point(j as nat) == q;
            lemma_flat_walk(w, j as nat);
        }
        assert forall|q: (int, int)| row_span(y, xa, xb).contains(q) implies w.pixels().contains(q) by {
            let j = q.0 - lo;
            lemma_flat_walk(w, j as nat);
            assert(w.point(j as nat) == q);
        }
        assert(w.pixels() =~= row_span(y, xa, xb));
    }
}

/// The pixels of edge `i` of a closed path: from point `i` to the next one,
/// the last point joining back to the first.
pub open spec fn path_edge_pixels(pts: Seq<(i64, i64)>, i: int) -> Set<(int, int)> {
    let j = if i + 1 < pts.len() {
        i + 1
    } else {
        0
    };
    line_pixels(pts[i].0 as int, pts[i].1 as int, pts[j].0 as int, pts[j].1 as int)
}

/// The pixels of the first `k` edges of a closed path.
pub open spec fn path_pixels_before(pts: Seq<(i64, i64)>, k: int) -> Set<(int, int)> {
    Set::new(|q: (int, int)| exists|i: int| 0 <= i < k && #[trigger] path_edge_pixels(pts, i).contains(q))
}

/// The pixels of every edge of a closed path, the closing edge included.
pub open spec fn polygon_pixels(pts: Seq<(i64, i64)>) -> Set<(int, int)> {
    path_pixels_before(pts, pts.len() as int)
}

impl Canvas {
    /// Draws the segment between `(x1, y1)` and `(x2, y2)` with the integer
    /// midpoint (Bresenham) algorithm, both endpoints included.
    pub fn draw_line(&mut self, x1: i64, y1: i64, x2: i64, y2: i64, color: u32)
        requires
            old(self).wf(),
        ensures
            final(self).wf(),
            final(self).same_shape(old(self)),
            final(self).buffer@ == old(self).painted(
                line_pixels(x1 as int, y1 as int, x2 as int, y2 as int),
                color,
            ),
    {
        let ghost w = line_walk(x1 as int, y1 as int, x2 as int, y2 as int);
        let ghost c0 = *old(self);
        let dx: i128 = x2 as i128 - x1 as i128;
        let dy: i128 = y2 as i128 - y1 as i128;
        let dx1: i128 = if dx < 0 { -dx } else { dx };
        let dy1: i128 = if dy < 0 { -dy } else { dy };
        let dir: i128 = if (dx < 0 && dy < 0) || (dx > 0 && dy > 0) { 1 } else { -1 };
        let steep = dy1 > dx1;
        let (dmaj, dmin) = if steep { (dy1, dx1) } else { (dx1, dy1) };
        let (mut a, mut b): (i128, i128) = if !steep {
            if dx >= 0 { (x1 as i128, y1 as i128) } else { (x2 as i128, y2 as i128) }
        } else {
            if dy >= 0 { (y1 as i128, x1 as i128) } else { (y2 as i128, x2 as i128) }
        };
        let mut p: i128 = 2 * dmin - dmaj;
        let mut k: i128 = 0;
        assert(w.state(0) == (a as int, b as int, p as int));
        if steep {
            self.plot(b, a, color);
        } else {
            self.plot(a, b, color);
        }
        assert(w.prefix(1) =~= set![w.point(0)]) by {
            assert(w.point(0int as nat) == w.point(0));
            assert(w.prefix(1).contains(w.point(0)));
        }
        while k < dmaj
            invariant
                0 <= dmin <= dmaj <= 0x2_0000_0000_0000_0000,
                w.dmaj == dmaj,
                w.dmin == dmin,
                w.dir == dir,
                w.steep == steep,
                w.a0 == a - k,
                -0x8000_0000_0000_0000 <= w.b0 < 0x8000_0000_0000_0000,
                -0x8000_0000_0000_0000 <= w.a0 < 0x8000_0000_0000_0000,
                dir == 1 || dir == -1,
                0 <= k <= dmaj,
                w.state(k as nat) == (a as int, b as int, p as int),
                self.wf(),
                self.same_shape(&c0),
                self.buffer@ == c0.painted(w.prefix(k + 1), color),
            decreases dmaj - k,
        {
            proof {
                lemma_walk_bounds(w, k as nat);
            }
            let advance = if steep { p > 0 } else { p >= 0 };
            a = a + 1;
            if advance {
                b = b + dir;
                p = p + 2 * (dmin - dmaj);
            } else {
                p = p + 2 * dmin;
            }
            k = k + 1;
            assert(w.state(k as nat) == (a as int, b as int, p as int));
            let ghost before = *self;
            if steep {
                self.plot(b, a, color);
            } else {
                self.plot(a, b, color);
            }
            proof {
                Canvas::lemma_painted_union(&c0, &before, w.prefix(k as int), set![w.point(k as nat)], color);
                assert(w.prefix(k + 1) =~= w.prefix(k as int).union(set![w.point(k as nat)]));
            }
        }
        assert(self.buffer@ == c0.painted(w.pixels(), color));
    }

    /// Draws the closed path through `points`: each point joined to the next,
    /// and the last one back to the first. No points draw nothing.
    pub fn draw_polygon(&mut self, points: &Vec<(i64, i64)>, color: u32)
        requires
            old(self).wf(),
        ensures
            final(self).wf(),
            final(self).same_shape(old(self)),
            final(self).buffer@ == old(self).painted(polygon_pixels(points@), color),
    {
        let ghost c0 = *old(self);
        let n = points.len();
        proof {
            c0.lemma_painted_empty(color);
            assert(path_pixels_before(points@, 0) =~= Set::empty());
        }
        let mut i: usize = 0;
        while i < n
            invariant
                n == points@.len(),
                i <= n,
                self.wf(),
                self.same_shape(&c0),
                self.buffer@ == c0.painted(path_pixels_before(points@, i as int), color),
            decreases n - i,
        {
            let j = if i + 1 < n { i + 1 } else { 0 };
            let ghost before = *self;
            self.draw_line(points[i].0, points[i].1, points[j].0, points[j].1, color);
            proof {
                Canvas::lemma_painted_union(
                    &c0,
                    &before,
                    path_pixels_before(points@, i as int),
                    path_edge_pixels(points@, i as int),
                    color,
                );
                assert(path_pixels_before(points@, i + 1) =~= path_pixels_before(points@, i as int).union(
                    path_edge_pixels(points@, i as int),
                ));
            }
            i = i + 1;
        }
    }
}

} // verus!
