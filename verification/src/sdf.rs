//! Drawing a distance-field glyph: every pixel of the glyph's box on the
//! target is placed in the source raster, its four neighbours are read from
//! the run-length stream, and a shader turns them into the coverage of the
//! pixel.
//!
//! Placing and shading work on fractions of a pixel. They are handed in as
//! two functions, and the weights that pass from the one to the other have a
//! type `W` that this module never looks into.

use crate::api::{
    lemma_plotted_nothing, lemma_plotted_push, lemma_refused_push, plotted, refused, GlyphrError,
    Plot, RenderTarget,
};
use crate::font::Glyph;
use crate::renderer::{clip, clip_rect, lemma_clip_inside, ClipRect};
use crate::sampler::{coverage_color, neighbors_at, plot_coverage, Neighbors, SdfSampler};
use vstd::prelude::*;

verus! {

/// A row or column that a locator named, kept inside a raster of `n` rows or
/// columns.
pub open spec fn kept_inside(raw: usize, n: int) -> int {
    if raw < n {
        raw as int
    } else {
        n - 1
    }
}

/// The locator places the output row or column `offset` of `out_size` at the
/// row or column `at` of a source of `src_size`, with the weight `weight`
/// towards the next one.
pub open spec fn located<W, L: Fn(i32, i32, i32) -> (usize, W)>(
    locate: &L,
    offset: int,
    out_size: i32,
    src_size: i32,
    at: int,
    weight: W,
) -> bool {
    exists|raw: usize| #[trigger]
        call_ensures(*locate, (offset as i32, out_size, src_size), (raw, weight)) && at
            == kept_inside(raw, src_size as int)
}

/// The shader gives `alpha` for the pixel in output column `column` of a row
/// that was placed at the source row `top` with the weight `wy`.
pub open spec fn pixel_shaded<W, L: Fn(i32, i32, i32) -> (usize, W), S: Fn(Neighbors, W, W) -> u8>(
    locate: &L,
    shade: &S,
    glyph: &Glyph,
    out_w: i32,
    column: int,
    top: int,
    wy: W,
    alpha: u8,
) -> bool {
    exists|left: int, wx: W| #[trigger]
        located(locate, column, out_w, glyph.width, left, wx) && call_ensures(
            *shade,
            (
                neighbors_at(glyph.bitmap@, glyph.width as int, glyph.height as int, left, top),
                wx,
                wy,
            ),
            alpha,
        )
}

/// The shading of one output row: the source row it was placed at, its
/// weight, and the coverage of its pixels from the left edge of the clip
/// rectangle on.
pub struct ShadedRow<W> {
    pub top: int,
    pub weight: W,
    pub alphas: Seq<u8>,
}

/// `row` is a shading of row `r` of the clip rectangle.
pub open spec fn row_shaded<W, L: Fn(i32, i32, i32) -> (usize, W), S: Fn(Neighbors, W, W) -> u8>(
    locate: &L,
    shade: &S,
    glyph: &Glyph,
    dst_x: i32,
    dst_y: i32,
    out_w: i32,
    out_h: i32,
    rect: ClipRect,
    r: int,
    row: ShadedRow<W>,
) -> bool {
    &&& located(locate, rect.y0 + r - dst_y, out_h, glyph.height, row.top, row.weight)
    &&& forall|c: int|
        0 <= c < row.alphas.len() ==> pixel_shaded(
            locate,
            shade,
            glyph,
            out_w,
            rect.x0 + c - dst_x,
            row.top,
            row.weight,
            #[trigger] row.alphas[c],
        )
}

/// The pixels that a row of coverages puts down from column `x0` on: those
/// that are covered at all, from left to right.
pub open spec fn coverage_plots(alphas: Seq<u8>, x0: int, oy: int, color: u32) -> Seq<Plot>
    decreases alphas.len(),
{
    if alphas.len() == 0 {
        Seq::empty()
    } else {
        let before = coverage_plots(alphas.drop_last(), x0, oy, color);
        if alphas.last() != 0 {
            before.push(
                Plot {
                    x: (x0 + alphas.len() - 1) as u32,
                    y: oy as u32,
                    color: coverage_color(alphas.last(), color),
                },
            )
        } else {
            before
        }
    }
}

/// The pixels that shaded rows put down from row `y0` on, from top to bottom.
pub open spec fn shaded_plots<W>(rows: Seq<ShadedRow<W>>, x0: int, y0: int, color: u32) -> Seq<
    Plot,
>
    decreases rows.len(),
{
    if rows.len() == 0 {
        Seq::empty()
    } else {
        shaded_plots(rows.drop_last(), x0, y0, color) + coverage_plots(
            rows.last().alphas,
            x0,
            y0 + rows.len() - 1,
            color,
        )
    }
}

/// What drawing a distance-field glyph over `rect` does to a target, and what
/// it returns. The rows of `rect` are shaded from top to bottom and each from
/// left to right, and every covered pixel is handed to the target; the first
/// pixel that the target refuses ends the drawing with `InvalidTarget`.
pub open spec fn sdf_drawn<
    T: RenderTarget,
    W,
    L: Fn(i32, i32, i32) -> (usize, W),
    S: Fn(Neighbors, W, W) -> u8,
>(
    before: &T,
    after: &T,
    glyph: &Glyph,
    dst_x: i32,
    dst_y: i32,
    out_w: i32,
    out_h: i32,
    color: u32,
    locate: &L,
    shade: &S,
    rect: Option<ClipRect>,
    result: Result<(), GlyphrError>,
) -> bool {
    match rect {
        None => result is Ok && *after == *before,
        Some(rect) => exists|rows: Seq<ShadedRow<W>>|
            {
                &&& forall|r: int|
                    0 <= r < rows.len() ==> row_shaded(
                        locate,
                        shade,
                        glyph,
                        dst_x,
                        dst_y,
                        out_w,
                        out_h,
                        rect,
                        r,
                        #[trigger] rows[r],
                    )
                &&& match result {
                    Ok(_) => {
                        &&& rows.len() == rect.y1 - rect.y0
                        &&& forall|r: int|
                            0 <= r < rows.len() ==> (#[trigger] rows[r]).alphas.len() == rect.x1
                                - rect.x0
                        &&& plotted(
                            before,
                            #[trigger] shaded_plots(rows, rect.x0 as int, rect.y0 as int, color),
                            after,
                        )
                    },
                    Err(error) => {
                        &&& error == GlyphrError::InvalidTarget
                        &&& 0 < rows.len() <= rect.y1 - rect.y0
                        &&& forall|r: int|
                            0 <= r < rows.len() - 1 ==> (#[trigger] rows[r]).alphas.len() == rect.x1
                                - rect.x0
                        &&& 0 < rows.last().alphas.len() <= rect.x1 - rect.x0
                        &&& rows.last().alphas.last() != 0
                        &&& refused(
                            before,
                            #[trigger] shaded_plots(rows, rect.x0 as int, rect.y0 as int, color),
                            after,
                        )
                    },
                }
            },
    }
}

/// What drawing a distance-field glyph at `(dst_x, dst_y)` in a box of
/// `out_w` by `out_h` pixels does to a target: nothing where the box or the
/// glyph's raster is empty, else what [`sdf_drawn`] says of the box cut to
/// the size that the target reports.
pub open spec fn sdf_glyph_drawn<
    T: RenderTarget,
    W,
    L: Fn(i32, i32, i32) -> (usize, W),
    S: Fn(Neighbors, W, W) -> u8,
>(
    before: &T,
    after: &T,
    glyph: &Glyph,
    dst_x: i32,
    dst_y: i32,
    out_w: i32,
    out_h: i32,
    color: u32,
    locate: &L,
    shade: &S,
    result: Result<(), GlyphrError>,
) -> bool {
    if out_w <= 0 || out_h <= 0 || glyph.width <= 0 || glyph.height <= 0 {
        result is Ok && *after == *before
    } else {
        exists|size: (u32, u32)|
            {
                &&& before.reports(size)
                &&& sdf_drawn(
                    before,
                    after,
                    glyph,
                    dst_x,
                    dst_y,
                    out_w,
                    out_h,
                    color,
                    locate,
                    shade,
                    #[trigger] clip(dst_x, dst_y, out_w, out_h, size),
                    result,
                )
            }
    }
}

/// Draws a distance-field glyph with the top left corner of its box at
/// `(dst_x, dst_y)`, the box `out_w` by `out_h` pixels.
///
/// `locate(offset, out_size, src_size)` places an output row or column in the
/// source raster and gives the weight towards the next one; a place behind
/// the raster counts as its last row or column. `shade(neighbours, wx, wy)`
/// gives the coverage of a pixel, 0 for none and 255 for all of it.
pub fn render_glyph_sdf<
    T: RenderTarget,
    W: Copy,
    L: Fn(i32, i32, i32) -> (usize, W),
    S: Fn(Neighbors, W, W) -> u8,
>(
    dst_x: i32,
    dst_y: i32,
    glyph: &Glyph,
    out_w: i32,
    out_h: i32,
    color: u32,
    locate: &L,
    shade: &S,
    target: &mut T,
) -> (result: Result<(), GlyphrError>)
    requires
        glyph.width > 0 && glyph.height > 0 ==> glyph.width * glyph.height <= usize::MAX,
        forall|offset: i32, out_size: i32, src_size: i32|
            call_requires(*locate, (offset, out_size, src_size)),
        forall|found: Neighbors, wx: W, wy: W| call_requires(*shade, (found, wx, wy)),
    ensures
        sdf_glyph_drawn(
            old(target),
            final(target),
            glyph,
            dst_x,
            dst_y,
            out_w,
            out_h,
            color,
            locate,
            shade,
            result,
        ),
{
    if out_w <= 0 || out_h <= 0 || glyph.width <= 0 || glyph.height <= 0 {
        return Ok(());
    }
    let (tgt_w, tgt_h) = target.dimensions();
    let ghost size = (tgt_w, tgt_h);
    let ghost before = *target;
    let rect = match clip_rect(dst_x, dst_y, out_w, out_h, tgt_w, tgt_h) {
        Some(rect) => rect,
        None => {
            return Ok(());
        },
    };
    let src_w = glyph.width as usize;
    let src_h = glyph.height as usize;
    let mut sampler = SdfSampler::new(glyph);
    let ghost mut done: Seq<ShadedRow<W>> = Seq::empty();
    proof {
        lemma_clip_inside(dst_x, dst_y, out_w, out_h, size);
        lemma_plotted_nothing(&before, target);
    }
    let mut oy = rect.y0;
    while oy < rect.y1
        invariant
            before == *old(target),
            before.reports(size),
            clip(dst_x, dst_y, out_w, out_h, size) == Some(rect),
            out_w > 0,
            out_h > 0,
            src_w == glyph.width,
            src_h == glyph.height,
            src_w > 0,
            src_h > 0,
            sampler.stream() == glyph.bitmap@,
            sampler.width() == glyph.width,
            sampler.height() == glyph.height,
            forall|offset: i32, out_size: i32, src_size: i32|
                call_requires(*locate, (offset, out_size, src_size)),
            forall|found: Neighbors, wx: W, wy: W| call_requires(*shade, (found, wx, wy)),
            rect.y0 <= oy <= rect.y1,
            done.len() == oy - rect.y0,
            forall|r: int|
                0 <= r < done.len() ==> (#[trigger] done[r]).alphas.len() == rect.x1 - rect.x0,
            forall|r: int|
                0 <= r < done.len() ==> row_shaded(
                    locate,
                    shade,
                    glyph,
                    dst_x,
                    dst_y,
                    out_w,
                    out_h,
                    rect,
                    r,
                    #[trigger] done[r],
                ),
            plotted(&before, shaded_plots(done, rect.x0 as int, rect.y0 as int, color), target),
        decreases rect.y1 - oy,
    {
        proof {
            lemma_clip_inside(dst_x, dst_y, out_w, out_h, size);
        }
        let (raw_top, wy) = locate(oy - dst_y, out_h, glyph.height);
        let top = if raw_top < src_h {
            raw_top
        } else {
            src_h - 1
        };
        assert(located(locate, oy - dst_y, out_h, glyph.height, top as int, wy));
        sampler.begin_row(top);
        let ghost mut alphas: Seq<u8> = Seq::empty();
        let ghost above = shaded_plots(done, rect.x0 as int, rect.y0 as int, color);
        proof {
            assert(above + coverage_plots(alphas, rect.x0 as int, oy as int, color) =~= above);
        }
        let mut ox = rect.x0;
        while ox < rect.x1
            invariant
                before == *old(target),
                before.reports(size),
                clip(dst_x, dst_y, out_w, out_h, size) == Some(rect),
                out_w > 0,
                out_h > 0,
                src_w == glyph.width,
                src_h == glyph.height,
                src_w > 0,
                src_h > 0,
                top < src_h,
                sampler.stream() == glyph.bitmap@,
                sampler.width() == glyph.width,
                sampler.height() == glyph.height,
                sampler.top_row() == top,
                forall|offset: i32, out_size: i32, src_size: i32|
                    call_requires(*locate, (offset, out_size, src_size)),
                forall|found: Neighbors, wx: W, wy: W| call_requires(*shade, (found, wx, wy)),
                rect.y0 <= oy < rect.y1,
                rect.x0 <= ox <= rect.x1,
                done.len() == oy - rect.y0,
                forall|r: int|
                    0 <= r < done.len() ==> (#[trigger] done[r]).alphas.len() == rect.x1 - rect.x0,
                forall|r: int|
                    0 <= r < done.len() ==> row_shaded(
                        locate,
                        shade,
                        glyph,
                        dst_x,
                        dst_y,
                        out_w,
                        out_h,
                        rect,
                        r,
                        #[trigger] done[r],
                    ),
                above == shaded_plots(done, rect.x0 as int, rect.y0 as int, color),
                located(locate, oy - dst_y, out_h, glyph.height, top as int, wy),
                alphas.len() == ox - rect.x0,
                forall|c: int|
                    0 <= c < alphas.len() ==> pixel_shaded(
                        locate,
                        shade,
                        glyph,
                        out_w,
                        rect.x0 + c - dst_x,
                        top as int,
                        wy,
                        #[trigger] alphas[c],
                    ),
                plotted(
                    &before,
                    above + coverage_plots(alphas, rect.x0 as int, oy as int, color),
                    target,
                ),
            decreases rect.x1 - ox,
        {
            proof {
                lemma_clip_inside(dst_x, dst_y, out_w, out_h, size);
            }
            let (raw_left, wx) = locate(ox - dst_x, out_w, glyph.width);
            let left = if raw_left < src_w {
                raw_left
            } else {
                src_w - 1
            };
            assert(located(locate, ox - dst_x, out_w, glyph.width, left as int, wx));
            let found = sampler.sample(left);
            let alpha = shade(found, wx, wy);
            assert(pixel_shaded(locate, shade, glyph, out_w, ox - dst_x, top as int, wy, alpha));
            let ghost mid = *target;
            let ghost here = above + coverage_plots(alphas, rect.x0 as int, oy as int, color);
            let ghost longer = alphas.push(alpha);
            let ghost plot = Plot {
                x: ox as u32,
                y: oy as u32,
                color: coverage_color(alpha, color),
            };
            let plotting = plot_coverage(target, ox as u32, oy as u32, alpha, color);
            proof {
                assert(longer.drop_last() =~= alphas);
                assert(longer.last() == alpha);
                assert forall|c: int| 0 <= c < longer.len() implies pixel_shaded(
                    locate,
                    shade,
                    glyph,
                    out_w,
                    rect.x0 + c - dst_x,
                    top as int,
                    wy,
                    #[trigger] longer[c],
                ) by {
                    if c < alphas.len() {
                        assert(longer[c] == alphas[c]);
                    }
                }
                if alpha != 0 {
                    assert(coverage_plots(longer, rect.x0 as int, oy as int, color)
                        == coverage_plots(alphas, rect.x0 as int, oy as int, color).push(plot));
                    assert(above + coverage_plots(longer, rect.x0 as int, oy as int, color)
                        =~= here.push(plot));
                } else {
                    assert(coverage_plots(longer, rect.x0 as int, oy as int, color)
                        == coverage_plots(alphas, rect.x0 as int, oy as int, color));
                }
            }
            match plotting {
                Ok(_) => {
                    proof {
                        if alpha != 0 {
                            lemma_plotted_push(&before, here, &mid, plot, target);
                        }
                    }
                },
                Err(error) => {
                    proof {
                        lemma_refused_push(&before, here, &mid, plot, target);
                        let last = ShadedRow { top: top as int, weight: wy, alphas: longer };
                        let rows = done.push(last);
                        assert(rows.drop_last() =~= done);
                        assert(rows.last() == last);
                        assert(shaded_plots(rows, rect.x0 as int, rect.y0 as int, color)
                            == here.push(plot));
                        assert forall|r: int| 0 <= r < rows.len() implies row_shaded(
                            locate,
                            shade,
                            glyph,
                            dst_x,
                            dst_y,
                            out_w,
                            out_h,
                            rect,
                            r,
                            #[trigger] rows[r],
                        ) by {
                            if r < done.len() {
                                assert(rows[r] == done[r]);
                            }
                        }
                        assert forall|r: int| 0 <= r < rows.len() - 1 implies (
                        #[trigger] rows[r]).alphas.len() == rect.x1 - rect.x0 by {
                            assert(rows[r] == done[r]);
                        }
                        assert(sdf_drawn(
                            &before,
                            target,
                            glyph,
                            dst_x,
                            dst_y,
                            out_w,
                            out_h,
                            color,
                            locate,
                            shade,
                            Some(rect),
                            Err::<(), GlyphrError>(error),
                        ));
                    }
                    return Err(error);
                },
            }
            proof {
                alphas = longer;
            }
            ox = ox + 1;
        }
        proof {
            let row = ShadedRow { top: top as int, weight: wy, alphas };
            let rows = done.push(row);
            assert(rows.drop_last() =~= done);
            assert(rows.last() == row);
            assert forall|r: int| 0 <= r < rows.len() implies row_shaded(
                locate,
                shade,
                glyph,
                dst_x,
                dst_y,
                out_w,
                out_h,
                rect,
                r,
                #[trigger] rows[r],
            ) by {
                if r < done.len() {
                    assert(rows[r] == done[r]);
                }
            }
            assert forall|r: int| 0 <= r < rows.len() implies (#[trigger] rows[r]).alphas.len()
                == rect.x1 - rect.x0 by {
                if r < done.len() {
                    assert(rows[r] == done[r]);
                }
            }
            done = rows;
        }
        oy = oy + 1;
    }
    proof {
        assert(sdf_drawn(
            &before,
            target,
            glyph,
            dst_x,
            dst_y,
            out_w,
            out_h,
            color,
            locate,
            shade,
            Some(rect),
            Ok::<(), GlyphrError>(()),
        ));
    }
    Ok(())
}

} // verus!
