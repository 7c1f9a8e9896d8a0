//! Reading the four neighbours of a sample position from the run-length
//! stream of a glyph, and putting a covered pixel on a target.

use crate::api::{GlyphrError, RenderTarget};
use crate::font::Glyph;
use crate::rle::{rle_decode_at, sample_at, RleCursor};
use vstd::prelude::*;

verus! {

/// The four samples around a position of the raster, for bilinear
/// interpolation: `p00` top left, `p10` top right, `p01` bottom left, `p11`
/// bottom right.
#[derive(Clone, Copy, Debug, PartialEq, Eq)]
pub struct Neighbors {
    pub p00: u8,
    pub p10: u8,
    pub p01: u8,
    pub p11: u8,
}

/// The row or column after `i`, or `i` itself at the far edge of a raster
/// with `n` rows or columns.
pub open spec fn next_inside(i: int, n: int) -> int {
    if i + 1 < n {
        i + 1
    } else {
        n - 1
    }
}

/// The samples of the raster `stream`, `width` samples a row, around the
/// position whose top left neighbour is `(left, top)`.
pub open spec fn neighbors_at(stream: Seq<u8>, width: int, height: int, left: int, top: int) -> Neighbors {
    let right = next_inside(left, width);
    let bottom = next_inside(top, height);
    Neighbors {
        p00: sample_at(stream, top * width + left),
        p10: sample_at(stream, top * width + right),
        p01: sample_at(stream, bottom * width + left),
        p11: sample_at(stream, bottom * width + right),
    }
}

/// Reads neighbours from the stream of one glyph. A cursor per sampled row
/// follows the scan, so that a scan from top to bottom and from left to right
/// reads the stream forward.
pub struct SdfSampler<'a> {
    base_cur: RleCursor<'a>,
    cur_top: RleCursor<'a>,
    cur_bot: RleCursor<'a>,
    src_w: usize,
    src_h: usize,
    top: usize,
    bottom: usize,
    last_left_dec_top: usize,
    last_left_dec_bottom: usize,
}

/// A row of a raster starts and ends inside the raster.
proof fn lemma_row_inside(row: int, width: int, height: int)
    requires
        0 <= row < height,
        0 < width,
    ensures
        0 <= row * width,
        row * width + width <= width * height,
{
    assert(0 <= row * width && row * width + width <= width * height) by (nonlinear_arith)
        requires
            0 <= row < height,
            0 < width,
    ;
}

impl<'a> SdfSampler<'a> {
    /// The stream that is read.
    pub closed spec fn stream(&self) -> Seq<u8> {
        self.base_cur.stream()
    }

    /// Samples in a row of the raster.
    pub closed spec fn width(&self) -> int {
        self.src_w as int
    }

    /// Rows of the raster.
    pub closed spec fn height(&self) -> int {
        self.src_h as int
    }

    /// The upper of the two rows that are sampled.
    pub closed spec fn top_row(&self) -> int {
        self.top as int
    }

    /// What holds of every sampler: its cursors read one stream, its raster
    /// is not empty and can be indexed, and the sampled rows lie in it.
    #[verifier::type_invariant]
    spec fn inv(self) -> bool {
        &&& self.cur_top.stream() == self.base_cur.stream()
        &&& self.cur_bot.stream() == self.base_cur.stream()
        &&& 0 < self.src_w
        &&& 0 < self.src_h
        &&& self.src_w * self.src_h <= usize::MAX
        &&& self.top < self.src_h
        &&& self.bottom == next_inside(self.top as int, self.src_h as int)
    }

    /// A sampler for `glyph`, on its first row.
    pub fn new(glyph: &Glyph<'a>) -> (sampler: Self)
        requires
            glyph.width > 0,
            glyph.height > 0,
            glyph.width * glyph.height <= usize::MAX,
        ensures
            sampler.stream() == glyph.bitmap@,
            sampler.width() == glyph.width,
            sampler.height() == glyph.height,
            sampler.top_row() == 0,
    {
        let base = RleCursor::new(glyph.bitmap);
        let src_h = glyph.height as usize;
        SdfSampler {
            base_cur: base,
            cur_top: base,
            cur_bot: base,
            src_w: glyph.width as usize,
            src_h,
            top: 0,
            bottom: if 1 < src_h {
                1
            } else {
                0
            },
            last_left_dec_top: 0,
            last_left_dec_bottom: 0,
        }
    }

    /// Moves to the rows `top` and the one below it (`top` again on the last
    /// row).
    pub fn begin_row(&mut self, top: usize)
        requires
            top < old(self).height(),
        ensures
            final(self).stream() == old(self).stream(),
            final(self).width() == old(self).width(),
            final(self).height() == old(self).height(),
            final(self).top_row() == top,
    {
        proof {
            use_type_invariant(&*self);
        }
        let bottom = if top + 1 < self.src_h {
            top + 1
        } else {
            self.src_h - 1
        };
        proof {
            lemma_row_inside(top as int, self.src_w as int, self.src_h as int);
            lemma_row_inside(bottom as int, self.src_w as int, self.src_h as int);
        }
        let row_start_top = top * self.src_w;
        let row_start_bottom = bottom * self.src_w;
        let mut base = self.base_cur;
        base.advance_to(row_start_top);
        let mut below = base;
        below.advance_to(row_start_bottom);
        *self = SdfSampler {
            base_cur: base,
            cur_top: base,
            cur_bot: below,
            src_w: self.src_w,
            src_h: self.src_h,
            top,
            bottom,
            last_left_dec_top: row_start_top,
            last_left_dec_bottom: row_start_bottom,
        };
    }

    /// The four samples around the position whose top left neighbour is
    /// column `left` of the upper row.
    pub fn sample(&mut self, left: usize) -> (found: Neighbors)
        requires
            left < old(self).width(),
        ensures
            found == neighbors_at(
                old(self).stream(),
                old(self).width(),
                old(self).height(),
                left as int,
                old(self).top_row(),
            ),
            final(self).stream() == old(self).stream(),
            final(self).width() == old(self).width(),
            final(self).height() == old(self).height(),
            final(self).top_row() == old(self).top_row(),
    {
        proof {
            use_type_invariant(&*self);
            lemma_row_inside(self.top as int, self.src_w as int, self.src_h as int);
            lemma_row_inside(self.bottom as int, self.src_w as int, self.src_h as int);
        }
        let right = if left + 1 < self.src_w {
            left + 1
        } else {
            self.src_w - 1
        };
        let row_start_top = self.top * self.src_w;
        let row_start_bottom = self.bottom * self.src_w;
        let li_top = row_start_top + left;
        let ri_top = row_start_top + right;
        let li_bot = row_start_bottom + left;
        let ri_bot = row_start_bottom + right;

        let mut cur_top = self.cur_top;
        let mut last_top = self.last_left_dec_top;
        if li_top > last_top {
            cur_top.advance_to(li_top);
            last_top = li_top;
        }
        let p00 = cur_top.get(li_top);
        let p10 = cur_top.get(ri_top);

        let mut cur_bot = self.cur_bot;
        let mut last_bottom = self.last_left_dec_bottom;
        if li_bot > last_bottom {
            cur_bot.advance_to(li_bot);
            last_bottom = li_bot;
        }
        let p01 = cur_bot.get(li_bot);
        let p11 = cur_bot.get(ri_bot);

        *self = SdfSampler {
            base_cur: self.base_cur,
            cur_top,
            cur_bot,
            src_w: self.src_w,
            src_h: self.src_h,
            top: self.top,
            bottom: self.bottom,
            last_left_dec_top: last_top,
            last_left_dec_bottom: last_bottom,
        };
        Neighbors { p00, p10, p01, p11 }
    }
}

/// The four samples around the position whose top left neighbour is
/// `(left, top)`, each read from the start of the glyph's stream.
pub fn sample_neighbors(glyph: &Glyph, left: usize, top: usize) -> (found: Neighbors)
    requires
        glyph.width > 0,
        glyph.height > 0,
        glyph.width * glyph.height <= usize::MAX,
        left < glyph.width,
        top < glyph.height,
    ensures
        found == neighbors_at(
            glyph.bitmap@,
            glyph.width as int,
            glyph.height as int,
            left as int,
            top as int,
        ),
{
    let width = glyph.width as usize;
    let height = glyph.height as usize;
    let right = if left + 1 < width {
        left + 1
    } else {
        width - 1
    };
    let bottom = if top + 1 < height {
        top + 1
    } else {
        height - 1
    };
    proof {
        lemma_row_inside(top as int, width as int, height as int);
        lemma_row_inside(bottom as int, width as int, height as int);
    }
    Neighbors {
        p00: rle_decode_at(glyph.bitmap, top * width + left),
        p10: rle_decode_at(glyph.bitmap, top * width + right),
        p01: rle_decode_at(glyph.bitmap, bottom * width + left),
        p11: rle_decode_at(glyph.bitmap, bottom * width + right),
    }
}

/// The colour of a pixel that a glyph covers by `alpha / 255`: the colour
/// channels of `color` under the alpha `alpha`.
pub open spec fn coverage_color(alpha: u8, color: u32) -> u32 {
    ((alpha as u32) << 24) | (color & 0x00ff_ffff)
}

/// Hands the pixel `(x, y)`, covered by `alpha / 255`, to the target. A pixel
/// that is not covered at all is not handed on.
pub fn plot_coverage<T: RenderTarget>(target: &mut T, x: u32, y: u32, alpha: u8, color: u32) -> (result:
    Result<(), GlyphrError>)
    ensures
        alpha == 0 ==> result is Ok && *final(target) == *old(target),
        alpha != 0 ==> old(target).write_gives(
            x,
            y,
            coverage_color(alpha, color),
            final(target),
            result is Ok,
        ),
        result matches Err(error) ==> error == GlyphrError::InvalidTarget,
{
    if alpha != 0 {
        let blended_color = ((alpha as u32) << 24) | (color & 0x00ff_ffff);
        if !target.write_pixel(x, y, blended_color) {
            return Err(GlyphrError::InvalidTarget);
        }
    }
    Ok(())
}

} // verus!
