//! Placing one glyph on a target: clipping, reading packed bitmaps, and the
//! pixels that a bitmap glyph puts down.

use crate::api::{
    lemma_plotted_nothing, lemma_plotted_push, lemma_refused_push, plotted, refused, GlyphrError, Plot, RenderTarget,
};
use crate::font::Glyph;
use vstd::prelude::*;

verus! {

/// The part of a glyph's box that lies on the target: columns `x0..x1`, rows
/// `y0..y1`, never empty.
#[derive(Clone, Copy, Debug, PartialEq, Eq)]
pub struct ClipRect {
    pub x0: i32,
    pub y0: i32,
    pub x1: i32,
    pub y1: i32,
}

/// A target dimension read as a signed 32-bit number: from 2^31 on it counts
/// as negative, and nothing is drawn on such a target.
pub open spec fn signed_dimension(d: u32) -> int {
    if d <= 0x7fff_ffff {
        d as int
    } else {
        d - 0x1_0000_0000
    }
}

/// The larger of two numbers.
pub open spec fn max_int(a: int, b: int) -> int {
    if a >= b {
        a
    } else {
        b
    }
}

/// The smaller of two numbers.
pub open spec fn min_int(a: int, b: int) -> int {
    if a <= b {
        a
    } else {
        b
    }
}

/// The box of `w` by `h` pixels at `(dst_x, dst_y)`, cut to a target of the
/// size `target`; `None` where nothing of it is left.
pub open spec fn clip(dst_x: i32, dst_y: i32, w: i32, h: i32, target: (u32, u32)) -> Option<
    ClipRect,
> {
    let x0 = max_int(0, dst_x as int);
    let y0 = max_int(0, dst_y as int);
    let x1 = min_int(dst_x + w, signed_dimension(target.0));
    let y1 = min_int(dst_y + h, signed_dimension(target.1));
    if w <= 0 || h <= 0 || x0 >= x1 || y0 >= y1 {
        None
    } else {
        Some(ClipRect { x0: x0 as i32, y0: y0 as i32, x1: x1 as i32, y1: y1 as i32 })
    }
}

/// What is left of a clipped box lies inside the box and on the target.
pub proof fn lemma_clip_inside(dst_x: i32, dst_y: i32, w: i32, h: i32, target: (u32, u32))
    ensures
        clip(dst_x, dst_y, w, h, target) matches Some(c) ==> {
            &&& 0 <= c.x0 < c.x1 <= target.0
            &&& 0 <= c.y0 < c.y1 <= target.1
            &&& dst_x <= c.x0
            &&& c.x1 <= dst_x + w
            &&& dst_y <= c.y0
            &&& c.y1 <= dst_y + h
        },
{
}

/// Cuts the box of `w` by `h` pixels at `(dst_x, dst_y)` to a target of
/// `tgt_w` by `tgt_h` pixels.
pub fn clip_rect(dst_x: i32, dst_y: i32, w: i32, h: i32, tgt_w: u32, tgt_h: u32) -> (rect: Option<
    ClipRect,
>)
    ensures
        rect == clip(dst_x, dst_y, w, h, (tgt_w, tgt_h)),
{
    if w <= 0 || h <= 0 {
        return None;
    }
    if tgt_w > 0x7fff_ffff || tgt_h > 0x7fff_ffff {
        return None;
    }
    let x0: i64 = if dst_x > 0 {
        dst_x as i64
    } else {
        0
    };
    let y0: i64 = if dst_y > 0 {
        dst_y as i64
    } else {
        0
    };
    let right: i64 = dst_x as i64 + w as i64;
    let bottom: i64 = dst_y as i64 + h as i64;
    let x1: i64 = if right < tgt_w as i64 {
        right
    } else {
        tgt_w as i64
    };
    let y1: i64 = if bottom < tgt_h as i64 {
        bottom
    } else {
        tgt_h as i64
    };
    if x0 >= x1 || y0 >= y1 {
        return None;
    }
    Some(ClipRect { x0: x0 as i32, y0: y0 as i32, x1: x1 as i32, y1: y1 as i32 })
}

/// Bit `bit_index` of a packed bitmap, the first pixel of each byte in its
/// highest bit.
pub open spec fn bit_at(bitmap: Seq<u8>, bit_index: int) -> bool {
    (bitmap[bit_index / 8] >> ((7 - bit_index % 8) as u8)) & 1 == 1
}

/// The pixel `(x, y)` of a bitmap glyph: `OutOfBounds` outside the glyph's box
/// and where the bitmap is too short to hold the pixel.
pub open spec fn bitmap_value(glyph: &Glyph, x: int, y: int) -> Result<bool, GlyphrError> {
    if x < 0 || y < 0 || x >= glyph.width || y >= glyph.height || (y * glyph.width + x) / 8
        >= glyph.bitmap@.len() {
        Err(GlyphrError::OutOfBounds)
    } else {
        Ok(bit_at(glyph.bitmap@, y * glyph.width + x))
    }
}

/// Reads the pixel `(x, y)` of a bitmap glyph.
pub fn bitmap_value_at(glyph: &Glyph, x: i32, y: i32) -> (value: Result<bool, GlyphrError>)
    ensures
        value == bitmap_value(glyph, x as int, y as int),
{
    if x < 0 || y < 0 || x >= glyph.width || y >= glyph.height {
        return Err(GlyphrError::OutOfBounds);
    }
    proof {
        assert(0 <= y * glyph.width <= 0x7fff_ffff * 0x7fff_ffff) by (nonlinear_arith)
            requires
                0 <= y <= 0x7fff_ffff,
                0 <= glyph.width <= 0x7fff_ffff,
        ;
    }
    let bit_index: i64 = (y as i64) * (glyph.width as i64) + (x as i64);
    let byte_index: u64 = (bit_index / 8) as u64;
    let bit_offset: u8 = (bit_index % 8) as u8;
    if byte_index >= glyph.bitmap.len() as u64 {
        return Err(GlyphrError::OutOfBounds);
    }
    let byte = glyph.bitmap[byte_index as usize];
    let bit = (byte >> (7 - bit_offset)) & 1;
    Ok(bit == 1)
}

/// `color` with its alpha channel set to 255.
pub open spec fn opaque(color: u32) -> u32 {
    (0xffu32 << 24) | (color & 0x00ff_ffff)
}

/// The target pixel `(ox, oy)` shows ink of a bitmap glyph drawn at
/// `(dst_x, dst_y)`.
pub open spec fn ink(glyph: &Glyph, dst_x: i32, dst_y: i32, ox: int, oy: int) -> bool {
    bitmap_value(glyph, ox - dst_x, oy - dst_y) == Ok::<bool, GlyphrError>(true)
}

/// The glyph has a pixel for the target pixel `(ox, oy)`.
pub open spec fn readable(glyph: &Glyph, dst_x: i32, dst_y: i32, ox: int, oy: int) -> bool {
    bitmap_value(glyph, ox - dst_x, oy - dst_y) is Ok
}

/// The pixels that a bitmap glyph puts down in row `oy`, columns `x0..x`, from
/// left to right.
pub open spec fn row_plots(
    glyph: &Glyph,
    dst_x: i32,
    dst_y: i32,
    color: u32,
    oy: int,
    x0: int,
    x: int,
) -> Seq<Plot>
    decreases x - x0,
{
    if x <= x0 {
        Seq::empty()
    } else {
        let before = row_plots(glyph, dst_x, dst_y, color, oy, x0, x - 1);
        if ink(glyph, dst_x, dst_y, x - 1, oy) {
            before.push(Plot { x: (x - 1) as u32, y: oy as u32, color: opaque(color) })
        } else {
            before
        }
    }
}

/// The pixels that a bitmap glyph puts down in rows `y0..y`, each over the
/// columns `x0..x1`, from top to bottom.
pub open spec fn rows_plots(
    glyph: &Glyph,
    dst_x: i32,
    dst_y: i32,
    color: u32,
    x0: int,
    x1: int,
    y0: int,
    y: int,
) -> Seq<Plot>
    decreases y - y0,
{
    if y <= y0 {
        Seq::empty()
    } else {
        rows_plots(glyph, dst_x, dst_y, color, x0, x1, y0, y - 1) + row_plots(
            glyph,
            dst_x,
            dst_y,
            color,
            y - 1,
            x0,
            x1,
        )
    }
}

/// The pixels that a bitmap glyph puts down before the scan of `rect`, row by
/// row and from left to right, comes to `(ox, oy)`.
pub open spec fn plots_before(
    glyph: &Glyph,
    dst_x: i32,
    dst_y: i32,
    color: u32,
    rect: ClipRect,
    ox: int,
    oy: int,
) -> Seq<Plot> {
    rows_plots(glyph, dst_x, dst_y, color, rect.x0 as int, rect.x1 as int, rect.y0 as int, oy)
        + row_plots(glyph, dst_x, dst_y, color, oy, rect.x0 as int, ox)
}

/// The scan of `rect` comes to `(x, y)` before it comes to `(ox, oy)`.
pub open spec fn scanned_before(rect: ClipRect, x: int, y: int, ox: int, oy: int) -> bool {
    rect.x0 <= x < rect.x1 && ((rect.y0 <= y < oy) || (y == oy && x < ox))
}

/// The glyph has a pixel for every target pixel scanned before `(ox, oy)`.
pub open spec fn readable_before(
    glyph: &Glyph,
    dst_x: i32,
    dst_y: i32,
    rect: ClipRect,
    ox: int,
    oy: int,
) -> bool {
    forall|x: int, y: int| #[trigger]
        scanned_before(rect, x, y, ox, oy) ==> readable(glyph, dst_x, dst_y, x, y)
}

/// What drawing a bitmap glyph over `rect` does to a target, and what it
/// returns: the scan goes on until the glyph has no pixel for a place
/// (`OutOfBounds`), until the target refuses a pixel (`InvalidTarget`), or to
/// its end.
pub open spec fn bitmap_drawn<T: RenderTarget>(
    before: &T,
    after: &T,
    glyph: &Glyph,
    dst_x: i32,
    dst_y: i32,
    color: u32,
    rect: Option<ClipRect>,
    result: Result<(), GlyphrError>,
) -> bool {
    match rect {
        None => result is Ok && *after == *before,
        Some(rect) => match result {
            Ok(_) => {
                &&& readable_before(glyph, dst_x, dst_y, rect, rect.x0 as int, rect.y1 as int)
                &&& plotted(
                    before,
                    plots_before(glyph, dst_x, dst_y, color, rect, rect.x0 as int, rect.y1 as int),
                    after,
                )
            },
            Err(GlyphrError::OutOfBounds) => exists|ox: int, oy: int|
                {
                    &&& rect.x0 <= ox < rect.x1
                    &&& rect.y0 <= oy < rect.y1
                    &&& readable_before(glyph, dst_x, dst_y, rect, ox, oy)
                    &&& !readable(glyph, dst_x, dst_y, ox, oy)
                    &&& plotted(
                        before,
                        #[trigger] plots_before(glyph, dst_x, dst_y, color, rect, ox, oy),
                        after,
                    )
                },
            Err(GlyphrError::InvalidTarget) => exists|ox: int, oy: int|
                {
                    &&& rect.x0 <= ox < rect.x1
                    &&& rect.y0 <= oy < rect.y1
                    &&& readable_before(glyph, dst_x, dst_y, rect, ox, oy)
                    &&& ink(glyph, dst_x, dst_y, ox, oy)
                    &&& refused(
                        before,
                        (#[trigger] plots_before(glyph, dst_x, dst_y, color, rect, ox, oy)).push(
                            Plot { x: ox as u32, y: oy as u32, color: opaque(color) },
                        ),
                        after,
                    )
                },
            Err(GlyphrError::InvalidGlyph(_)) => false,
        },
    }
}

/// What drawing a bitmap glyph at `(dst_x, dst_y)` does to a target: nothing
/// where the glyph's box is empty, else what [`bitmap_drawn`] says of the box
/// cut to the size that the target reports.
pub open spec fn bitmap_glyph_drawn<T: RenderTarget>(
    before: &T,
    after: &T,
    glyph: &Glyph,
    dst_x: i32,
    dst_y: i32,
    color: u32,
    result: Result<(), GlyphrError>,
) -> bool {
    if glyph.width <= 0 || glyph.height <= 0 {
        result is Ok && *after == *before
    } else {
        exists|size: (u32, u32)|
            {
                &&& before.reports(size)
                &&& bitmap_drawn(
                    before,
                    after,
                    glyph,
                    dst_x,
                    dst_y,
                    color,
                    #[trigger] clip(dst_x, dst_y, glyph.width, glyph.height, size),
                    result,
                )
            }
    }
}

/// Draws a bitmap glyph with its top left corner at `(dst_x, dst_y)`: every
/// set pixel of the glyph that lies on the target is written in `color`, made
/// opaque, row by row and from left to right.
pub fn render_glyph_bitmap<T: RenderTarget>(
    dst_x: i32,
    dst_y: i32,
    glyph: &Glyph,
    color: u32,
    target: &mut T,
) -> (result: Result<(), GlyphrError>)
    ensures
        bitmap_glyph_drawn(old(target), final(target), glyph, dst_x, dst_y, color, result),
{
    let w = glyph.width;
    let h = glyph.height;
    if w <= 0 || h <= 0 {
        return Ok(());
    }
    let (tgt_w, tgt_h) = target.dimensions();
    let ghost size = (tgt_w, tgt_h);
    let ghost before = *target;
    let rect = match clip_rect(dst_x, dst_y, w, h, tgt_w, tgt_h) {
        Some(rect) => rect,
        None => {
            return Ok(());
        },
    };
    proof {
        lemma_clip_inside(dst_x, dst_y, w, h, size);
        assert(plots_before(glyph, dst_x, dst_y, color, rect, rect.x0 as int, rect.y0 as int)
            =~= Seq::<Plot>::empty());
        lemma_plotted_nothing(&before, target);
    }
    let color_out = (0xffu32 << 24) | (color & 0x00ff_ffff);
    let mut oy = rect.y0;
    while oy < rect.y1
        invariant
            before == *old(target),
            before.reports(size),
            clip(dst_x, dst_y, w, h, size) == Some(rect),
            w == glyph.width,
            h == glyph.height,
            rect.y0 <= oy <= rect.y1,
            0 <= rect.x0 < rect.x1,
            0 <= rect.y0,
            color_out == opaque(color),
            readable_before(glyph, dst_x, dst_y, rect, rect.x0 as int, oy as int),
            plotted(
                &before,
                plots_before(glyph, dst_x, dst_y, color, rect, rect.x0 as int, oy as int),
                target,
            ),
        decreases rect.y1 - oy,
    {
        let y_src = oy - dst_y;
        let mut ox = rect.x0;
        while ox < rect.x1
            invariant
                before == *old(target),
                before.reports(size),
                clip(dst_x, dst_y, w, h, size) == Some(rect),
                w == glyph.width,
                h == glyph.height,
                rect.y0 <= oy < rect.y1,
                rect.x0 <= ox <= rect.x1,
                0 <= rect.x0,
                0 <= rect.y0,
                y_src == oy - dst_y,
                color_out == opaque(color),
                readable_before(glyph, dst_x, dst_y, rect, ox as int, oy as int),
                plotted(
                    &before,
                    plots_before(glyph, dst_x, dst_y, color, rect, ox as int, oy as int),
                    target,
                ),
            decreases rect.x1 - ox,
        {
            proof {
                lemma_clip_inside(dst_x, dst_y, w, h, size);
            }
            let x_src = ox - dst_x;
            let ghost here = plots_before(glyph, dst_x, dst_y, color, rect, ox as int, oy as int);
            let ghost next = plots_before(glyph, dst_x, dst_y, color, rect, ox + 1, oy as int);
            let ghost rows = rows_plots(
                glyph,
                dst_x,
                dst_y,
                color,
                rect.x0 as int,
                rect.x1 as int,
                rect.y0 as int,
                oy as int,
            );
            let ghost row = row_plots(glyph, dst_x, dst_y, color, oy as int, rect.x0 as int, ox as int);
            let ghost plot = Plot { x: ox as u32, y: oy as u32, color: opaque(color) };
            match bitmap_value_at(glyph, x_src, y_src) {
                Err(error) => {
                    assert(!readable(glyph, dst_x, dst_y, ox as int, oy as int));
                    return Err(error);
                },
                Ok(set) => {
                    if set {
                        let ghost mid = *target;
                        let accepted = target.write_pixel(ox as u32, oy as u32, color_out);
                        proof {
                            assert(ink(glyph, dst_x, dst_y, ox as int, oy as int));
                            assert(next =~= here.push(plot)) by {
                                assert(rows + row.push(plot) =~= (rows + row).push(plot));
                            }
                        }
                        if !accepted {
                            proof {
                                lemma_refused_push(&before, here, &mid, plot, target);
                            }
                            return Err(GlyphrError::InvalidTarget);
                        }
                        proof {
                            lemma_plotted_push(&before, here, &mid, plot, target);
                        }
                    } else {
                        assert(next =~= here);
                    }
                },
            }
            proof {
                assert forall|x: int, y: int| #[trigger]
                    scanned_before(rect, x, y, ox + 1, oy as int) implies readable(
                    glyph,
                    dst_x,
                    dst_y,
                    x,
                    y,
                ) by {
                    if !(y == oy && x == ox) {
                        assert(scanned_before(rect, x, y, ox as int, oy as int));
                    }
                }
            }
            ox = ox + 1;
        }
        proof {
            let done = plots_before(glyph, dst_x, dst_y, color, rect, rect.x1 as int, oy as int);
            let start = plots_before(glyph, dst_x, dst_y, color, rect, rect.x0 as int, oy + 1);
            assert(row_plots(glyph, dst_x, dst_y, color, oy + 1, rect.x0 as int, rect.x0 as int)
                =~= Seq::<Plot>::empty());
            assert(start =~= done);
            assert forall|x: int, y: int| #[trigger]
                scanned_before(rect, x, y, rect.x0 as int, oy + 1) implies readable(
                glyph,
                dst_x,
                dst_y,
                x,
                y,
            ) by {
                assert(scanned_before(rect, x, y, rect.x1 as int, oy as int));
            }
        }
        oy = oy + 1;
    }
    Ok(())
}

} // verus!
