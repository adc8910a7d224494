use vstd::prelude::*;

use vstd::string::StringSliceAdditionalSpecFns;

use crate::canvas::Canvas;

verus! {

/// What each row of a boolean grid holds.
pub open spec fn rows_view(rows: Seq<Vec<bool>>) -> Seq<Seq<bool>> {
    Seq::new(rows.len(), |i: int| rows[i]@)
}

/// The cells of `mask` that are set, placed with the mask's first cell at
/// `(x, y)`: cell `(row, col)` lands on pixel `(x + col, y + row)`.
pub open spec fn mask_pixels(mask: Seq<Seq<bool>>, x: int, y: int) -> Set<(int, int)> {
    mask_cells_before(mask, x, y, mask.len() as int, 0)
}

/// The set cells of `mask` that come before `(r, c)` in row-major order.
pub open spec fn mask_cells_before(mask: Seq<Seq<bool>>, x: int, y: int, r: int, c: int) -> Set<(int, int)> {
    Set::new(
        |q: (int, int)|
            {
                let i = q.1 - y;
                let j = q.0 - x;
                &&& 0 <= i < mask.len()
                &&& 0 <= j < mask[i].len()
                &&& mask[i][j]
                &&& (i < r || (i == r && j < c))
            },
    )
}

/// A byte that the bitmap font has a glyph for: printable ASCII.
pub open spec fn in_font(b: u8) -> bool {
    0x20 <= b <= 0x7e
}

/// The glyph grid that the bitmap font gives for a string of printable
/// ASCII bytes.
pub uninterp spec fn font_rows(bytes: Seq<u8>) -> Seq<Seq<bool>>;

/// Relies on `bitfont::bitmap_bool`: it fails on any byte outside the printable
/// ASCII range and otherwise returns eight rows of eight cells per byte, which
/// depend on the bytes alone. On the byte 0x7f it reads past its glyph table
/// and panics, so that byte is excluded.
#[verifier::external_body]
fn font_bitmap(text: &str) -> (r: Option<Vec<Vec<bool>>>)
    requires
        forall|i: int| 0 <= i < text.spec_bytes().len() ==> text.spec_bytes()[i] != 0x7f,
    ensures
        r.is_some() <==> forall|i: int| 0 <= i < text.spec_bytes().len() ==> in_font(text.spec_bytes()[i]),
        r matches Some(rows) ==> rows_view(rows@) == font_rows(text.spec_bytes()),
        r matches Some(rows) ==> rows@.len() == 8,
        r matches Some(rows) ==> forall|k: int| 0 <= k < 8 ==> rows@[k]@.len() == 8 * text.spec_bytes().len(),
{
    bitfont::bitmap_bool(text).ok()
}

/// Why a string could not be drawn.
#[derive(Clone, Copy, Debug, PartialEq, Eq, Structural)]
pub enum TextError {
    /// The string holds a byte that the font has no glyph for.
    CharacterNotInFont,
}

impl Canvas {
    /// Writes `color` at every set cell of `mask`, the mask's first cell
    /// landing on `(x, y)`; unset cells leave their pixel as it is.
    pub fn draw_mask(&mut self, mask: &Vec<Vec<bool>>, x: i64, y: i64, color: u32)
        requires
            old(self).wf(),
        ensures
            final(self).wf(),
            final(self).same_shape(old(self)),
            final(self).buffer@ == old(self).painted(mask_pixels(rows_view(mask@), x as int, y as int), color),
    {
        let ghost c0 = *old(self);
        let ghost m = rows_view(mask@);
        proof {
            c0.lemma_painted_empty(color);
            assert(mask_cells_before(m, x as int, y as int, 0, 0) =~= Set::empty());
        }
        let mut cy: usize = 0;
        while cy < mask.len()
            invariant
                cy <= mask@.len(),
                m == rows_view(mask@),
                self.wf(),
                self.same_shape(&c0),
                self.buffer@ == c0.painted(mask_cells_before(m, x as int, y as int, cy as int, 0), color),
            decreases mask@.len() - cy,
        {
            let row = &mask[cy];
            let mut cx: usize = 0;
            while cx < row.len()
                invariant
                    cy < mask@.len(),
                    row == mask@[cy as int],
                    cx <= row@.len(),
                    m == rows_view(mask@),
                    self.wf(),
                    self.same_shape(&c0),
                    self.buffer@ == c0.painted(mask_cells_before(m, x as int, y as int, cy as int, cx as int), color),
                decreases row@.len() - cx,
            {
                let ghost before_cells = mask_cells_before(m, x as int, y as int, cy as int, cx as int);
                if row[cx] {
                    let ghost before = *self;
                    let ghost pt = (x + cx, y + cy);
                    self.plot(x as i128 + cx as i128, y as i128 + cy as i128, color);
                    proof {
                        Canvas::lemma_painted_union(&c0, &before, before_cells, set![pt], color);
                        assert(mask_cells_before(m, x as int, y as int, cy as int, cx + 1) =~= before_cells.union(set![pt]));
                    }
                } else {
                    assert(mask_cells_before(m, x as int, y as int, cy as int, cx + 1) =~= before_cells);
                }
                cx = cx + 1;
            }
            assert(mask_cells_before(m, x as int, y as int, cy + 1, 0) =~= mask_cells_before(
                m,
                x as int,
                y as int,
                cy as int,
                cx as int,
            ));
            cy = cy + 1;
        }
    }

    /// Draws `text` in the bitmap font with its top-left corner at `(x, y)`.
    /// A string with a byte that the font lacks draws nothing and is refused.
    pub fn draw_text(&mut self, text: &str, x: i64, y: i64, color: u32) -> (r: Result<(), TextError>)
        requires
            old(self).wf(),
        ensures
            final(self).wf(),
            final(self).same_shape(old(self)),
            r is Ok <==> forall|i: int| 0 <= i < text.spec_bytes().len() ==> in_font(text.spec_bytes()[i]),
            r is Ok ==> final(self).buffer@ == old(self).painted(
                mask_pixels(font_rows(text.spec_bytes()), x as int, y as int),
                color,
            ),
            r is Err ==> final(self).buffer@ == old(self).buffer@,
    {
        let bytes = text.as_bytes();
        let mut i: usize = 0;
        while i < bytes.len()
            invariant
                bytes@ == text.spec_bytes(),
                *self == *old(self),
                self.wf(),
                i <= bytes@.len(),
                forall|j: int| 0 <= j < i ==> bytes@[j] != 0x7f,
            decreases bytes@.len() - i,
        {
            if bytes[i] == 0x7f {
                assert(!in_font(text.spec_bytes()[i as int]));
                return Err(TextError::CharacterNotInFont);
            }
            i = i + 1;
        }
        match font_bitmap(text) {
            Some(rows) => {
                self.draw_mask(&rows, x, y, color);
                Ok(())
            },
            None => Err(TextError::CharacterNotInFont),
        }
    }
}

} // verus!
