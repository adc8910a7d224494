use vstd::prelude::*;

verus! {

/// Wraps a coordinate once into `[0, max)`: a negative value gains `max`, a
/// value at or beyond `max` loses it, anything else stays.
pub open spec fn wrap_coord(n: int, max: int) -> int {
    if n < 0 {
        n + max
    } else if n >= max {
        n - max
    } else {
        n
    }
}

/// The buffer index that a write at `(x, y)` lands on, if any: coordinates are
/// wrapped first when `wrap` is set, and the write lands only when both are
/// non-negative and the row-major index lies inside the buffer.
pub open spec fn target_index(w: int, h: int, wrap: bool, x: int, y: int) -> Option<int> {
    let tx = if wrap { wrap_coord(x, w) } else { x };
    let ty = if wrap { wrap_coord(y, h) } else { y };
    if tx >= 0 && ty >= 0 && ty * w + tx < w * h {
        Some(ty * w + tx)
    } else {
        None
    }
}

/// Bound on the coordinates handed to the internal pixel writer.
pub(crate) const COORD_LIMIT: i128 = 0x1_0000_0000_0000_0000_0000;

fn wrap(n: i128, max: usize) -> (r: i128)
    requires
        -COORD_LIMIT <= n <= COORD_LIMIT,
    ensures
        r == wrap_coord(n as int, max as int),
{
    if n < 0 {
        n + max as i128
    } else if n >= max as i128 {
        n - max as i128
    } else {
        n
    }
}

/// A `width * height` buffer of packed `0xRRGGBB` colors, row-major with the
/// origin at the top left.
pub struct Canvas {
    pub buffer: Vec<u32>,
    pub width: usize,
    pub height: usize,
    pub wrap_pixels: bool,
}

impl Canvas {
    /// The buffer holds exactly one entry per pixel.
    pub open spec fn wf(&self) -> bool {
        self.buffer@.len() == self.width * self.height
    }

    pub open spec fn index_of(&self, p: (int, int)) -> Option<int> {
        target_index(self.width as int, self.height as int, self.wrap_pixels, p.0, p.1)
    }

    /// Whether some point of `pts` lands on buffer index `i`.
    pub open spec fn hits(&self, pts: Set<(int, int)>, i: int) -> bool {
        exists|p: (int, int)| pts.contains(p) && #[trigger] self.index_of(p) == Some(i)
    }

    /// The buffer after every point of `pts` has been written with `color`.
    pub open spec fn painted(&self, pts: Set<(int, int)>, color: u32) -> Seq<u32> {
        Seq::new(
            self.buffer@.len(),
            |i: int|
                if self.hits(pts, i) {
                    color
                } else {
                    self.buffer@[i]
                },
        )
    }

    /// Same dimensions and wrap mode as `other`.
    pub open spec fn same_shape(&self, other: &Canvas) -> bool {
        &&& self.width == other.width
        &&& self.height == other.height
        &&& self.wrap_pixels == other.wrap_pixels
    }

    /// Writes one pixel at coordinates that may lie far outside the buffer.
    pub(crate) fn plot(&mut self, x: i128, y: i128, color: u32)
        requires
            old(self).wf(),
            -COORD_LIMIT <= x <= COORD_LIMIT,
            -COORD_LIMIT <= y <= COORD_LIMIT,
        ensures
            final(self).wf(),
            final(self).same_shape(old(self)),
            final(self).buffer@ == old(self).painted(set![(x as int, y as int)], color),
    {
        let ghost pt = (x as int, y as int);
        let mut tx = x;
        let mut ty = y;
        if self.wrap_pixels {
            tx = wrap(x, self.width);
            ty = wrap(y, self.height);
        }
        let n = self.buffer.len();
        proof {
            assert(set![pt].contains(pt));
        }
        if tx >= 0 && ty >= 0 && (ty as u128) < (self.height as u128) {
            let w = self.width as u128;
            assert(self.width * self.height == self.buffer@.len());
            assert((ty as int) * (w as int) <= (w as int) * (self.height as int)) by (nonlinear_arith)
                requires
                    0 <= ty < self.height,
            ;
            assert((ty as int) * (w as int) <= n);
            let idx = (ty as u128) * w + (tx as u128);
            if idx < n as u128 {
                self.buffer.set(idx as usize, color);
                assert(old(self).index_of(pt) == Some(idx as int));
                assert(old(self).hits(set![pt], idx as int));
                assert forall|i: int| i != idx implies !old(self).hits(set![pt], i) by {
                    if old(self).hits(set![pt], i) {
                        let p = choose|p: (int, int)| set![pt].contains(p) && #[trigger] old(self).index_of(p) == Some(i);
                        assert(p == pt);
                    }
                }
                assert(self.buffer@ =~= old(self).painted(set![pt], color));
                return;
            }
        } else if tx >= 0 && ty >= 0 {
            assert((ty as int) * (self.width as int) >= (self.width as int) * (self.height as int))
                by (nonlinear_arith)
                requires
                    ty >= self.height,
            ;
        }
        assert(old(self).index_of(pt) is None);
        assert forall|i: int| !old(self).hits(set![pt], i) by {
            if old(self).hits(set![pt], i) {
                let p = choose|p: (int, int)| set![pt].contains(p) && #[trigger] old(self).index_of(p) == Some(i);
                assert(p == pt);
            }
        }
        assert(self.buffer@ =~= old(self).painted(set![pt], color));
    }

    /// Writes one pixel, wrapping the coordinates first when `wrap_pixels` is
    /// set; a write that falls outside the buffer is dropped.
    pub fn draw(&mut self, x: i64, y: i64, color: u32)
        requires
            old(self).wf(),
        ensures
            final(self).wf(),
            final(self).same_shape(old(self)),
            final(self).buffer@ == old(self).painted(set![(x as int, y as int)], color),
    {
        self.plot(x as i128, y as i128, color);
    }

    /// Painting `s1` and then `s2` in one color is painting their union.
    pub proof fn lemma_painted_union(a: &Canvas, b: &Canvas, s1: Set<(int, int)>, s2: Set<(int, int)>, color: u32)
        requires
            b.same_shape(a),
            b.buffer@ == a.painted(s1, color),
        ensures
            b.painted(s2, color) == a.painted(s1.union(s2), color),
    {
        assert forall|i: int| a.hits(s1.union(s2), i) <==> a.hits(s1, i) || b.hits(s2, i) by {
            if a.hits(s1.union(s2), i) {
                let p = choose|p: (int, int)| s1.union(s2).contains(p) && #[trigger] a.index_of(p) == Some(i);
                assert(b.index_of(p) == a.index_of(p));
            }
            if a.hits(s1, i) {
                let p = choose|p: (int, int)| s1.contains(p) && #[trigger] a.index_of(p) == Some(i);
                assert(s1.union(s2).contains(p));
            }
            if b.hits(s2, i) {
                let p = choose|p: (int, int)| s2.contains(p) && #[trigger] b.index_of(p) == Some(i);
                assert(s1.union(s2).contains(p));
                assert(b.index_of(p) == a.index_of(p));
            }
        }
        assert(b.painted(s2, color) =~= a.painted(s1.union(s2), color));
    }

    /// Painting no pixel leaves the buffer as it is.
    pub proof fn lemma_painted_empty(&self, color: u32)
        ensures
            self.painted(Set::empty(), color) == self.buffer@,
    {
        assert(self.painted(Set::empty(), color) =~= self.buffer@);
    }

    pub fn new(width: usize, height: usize, wrap_pixels: bool) -> (c: Canvas)
        requires
            width * height <= usize::MAX,
        ensures
            c.wf(),
            c.width == width,
            c.height == height,
            c.wrap_pixels == wrap_pixels,
            forall|i: int| 0 <= i < c.buffer@.len() ==> c.buffer@[i] == 0,
    {
        Canvas { width, height, buffer: vec![0; width * height], wrap_pixels }
    }

    pub fn clear(&mut self, color: u32)
        ensures
            final(self).same_shape(old(self)),
            final(self).buffer@.len() == old(self).buffer@.len(),
            forall|i: int| 0 <= i < final(self).buffer@.len() ==> final(self).buffer@[i] == color,
    {
        let n = self.buffer.len();
        let mut i: usize = 0;
        while i < n
            invariant
                self.same_shape(old(self)),
                n == self.buffer@.len(),
                n == old(self).buffer@.len(),
                i <= n,
                forall|j: int| 0 <= j < i ==> self.buffer@[j] == color,
            decreases n - i,
        {
            self.buffer.set(i, color);
            i = i + 1;
        }
    }
}

} // verus!
