//! Rendering again gives the same: on pixel buffers that show the same, with
//! a locator and a shader that give one answer to one question, a glyph or a
//! text leaves the same pixels and the same result each time it is drawn.

use crate::api::{
    plot_trace, plotted, refused, BufferTarget, GlyphrError, Plot, RenderTarget, TextAlign,
};
use crate::font::{BitmapFormat, Font, Glyph};
use crate::layout::{ScaledGlyph, VerticalOffsets};
use crate::renderer::{
    bitmap_drawn, clip, ink, lemma_clip_inside, opaque, plots_before, readable, readable_before,
    row_plots, rows_plots, scanned_before, ClipRect,
};
use crate::sampler::{coverage_color, neighbors_at, Neighbors};
use crate::sdf::{
    coverage_plots, kept_inside, located, pixel_shaded, row_shaded, sdf_drawn, shaded_plots,
    ShadedRow,
};
use crate::text::{
    all_found, glyph_drawn, line_shift, pen_before, text_rendered, text_step, text_trace,
};
use vstd::prelude::*;

verus! {

/// Two pixel buffers show the same.
pub open spec fn same_pixels(a: &BufferTarget, b: &BufferTarget) -> bool {
    a.buffer@ == b.buffer@ && a.width == b.width && a.height == b.height
}

/// Two pixel buffers have the same size and hold as many pixels.
pub open spec fn same_frame(a: &BufferTarget, b: &BufferTarget) -> bool {
    a.buffer@.len() == b.buffer@.len() && a.width == b.width && a.height == b.height
}

/// A pixel buffer takes the pixel of a plot.
pub open spec fn takes(target: &BufferTarget, plot: Plot) -> bool {
    target.holds(plot.x, plot.y)
}

/// Writing pixels changes neither the size of a pixel buffer nor the number
/// of its pixels, and every pixel that was taken lies in the buffer.
proof fn lemma_trace_frame<'a>(states: Seq<BufferTarget<'a>>, plots: Seq<Plot>, k: int)
    requires
        plot_trace(states, plots),
        0 <= k <= plots.len(),
    ensures
        same_frame(&states[k], &states[0]),
        k < plots.len() ==> takes(&states[0], plots[k]),
    decreases k,
{
    if k > 0 {
        lemma_trace_frame(states, plots, k - 1);
        assert(states[k - 1].write_gives(
            plots[k - 1].x,
            plots[k - 1].y,
            plots[k - 1].color,
            &states[k],
            true,
        ));
    }
    if k < plots.len() {
        assert(states[k].write_gives(plots[k].x, plots[k].y, plots[k].color, &states[k + 1], true));
    }
}

/// Two traces of the same pixels on pixel buffers that show the same at the
/// start show the same after every pixel.
proof fn lemma_buffer_traces<'a>(
    one: Seq<BufferTarget<'a>>,
    other: Seq<BufferTarget<'a>>,
    plots: Seq<Plot>,
    k: int,
)
    requires
        plot_trace(one, plots),
        plot_trace(other, plots),
        same_pixels(&one[0], &other[0]),
        0 <= k <= plots.len(),
    ensures
        same_pixels(&one[k], &other[k]),
    decreases k,
{
    if k > 0 {
        lemma_buffer_traces(one, other, plots, k - 1);
        let a = one[k - 1];
        let b = other[k - 1];
        assert(a.write_gives(plots[k - 1].x, plots[k - 1].y, plots[k - 1].color, &one[k], true));
        assert(b.write_gives(plots[k - 1].x, plots[k - 1].y, plots[k - 1].color, &other[k], true));
    }
}

/// A pixel buffer keeps its size while pixels are plotted, and every plotted
/// pixel lies in it.
pub proof fn lemma_plotted_taken<'a>(
    before: &BufferTarget<'a>,
    plots: Seq<Plot>,
    after: &BufferTarget<'a>,
)
    requires
        plotted(before, plots, after),
    ensures
        same_frame(after, before),
        forall|k: int| 0 <= k < plots.len() ==> takes(before, #[trigger] plots[k]),
{
    let states = choose|states: Seq<BufferTarget<'a>>|
        {
            &&& #[trigger] plot_trace(states, plots)
            &&& states.first() == *before
            &&& states.last() == *after
        };
    lemma_trace_frame(states, plots, plots.len() as int);
    assert forall|k: int| 0 <= k < plots.len() implies takes(before, #[trigger] plots[k]) by {
        lemma_trace_frame(states, plots, k);
    }
}

/// The same pixels written to pixel buffers that show the same leave them
/// showing the same.
pub proof fn lemma_buffer_plots<'a>(
    first: &BufferTarget<'a>,
    second: &BufferTarget<'a>,
    plots: Seq<Plot>,
    first_after: &BufferTarget<'a>,
    second_after: &BufferTarget<'a>,
)
    requires
        same_pixels(first, second),
        plotted(first, plots, first_after),
        plotted(second, plots, second_after),
    ensures
        same_pixels(first_after, second_after),
{
    let one = choose|states: Seq<BufferTarget<'a>>|
        {
            &&& #[trigger] plot_trace(states, plots)
            &&& states.first() == *first
            &&& states.last() == *first_after
        };
    let other = choose|states: Seq<BufferTarget<'a>>|
        {
            &&& #[trigger] plot_trace(states, plots)
            &&& states.first() == *second
            &&& states.last() == *second_after
        };
    lemma_buffer_traces(one, other, plots, plots.len() as int);
}

/// A pixel that a pixel buffer refuses lies outside the buffer, and the
/// buffer shows what it showed before that pixel.
pub proof fn lemma_refused_outside<'a>(
    before: &BufferTarget<'a>,
    plots: Seq<Plot>,
    after: &BufferTarget<'a>,
)
    requires
        refused(before, plots, after),
    ensures
        plots.len() > 0,
        same_frame(after, before),
        !takes(before, plots.last()),
        forall|k: int| 0 <= k < plots.len() - 1 ==> takes(before, #[trigger] plots[k]),
        exists|mid: BufferTarget<'a>| #[trigger]
            plotted(before, plots.drop_last(), &mid) && same_pixels(&mid, after),
{
    let mid = choose|mid: BufferTarget<'a>|
        {
            &&& #[trigger] plotted(before, plots.drop_last(), &mid)
            &&& mid.write_gives(plots.last().x, plots.last().y, plots.last().color, after, false)
        };
    lemma_plotted_taken(before, plots.drop_last(), &mid);
    assert forall|k: int| 0 <= k < plots.len() - 1 implies takes(before, #[trigger] plots[k]) by {
        assert(plots.drop_last()[k] == plots[k]);
    }
    assert(plotted(before, plots.drop_last(), &mid) && same_pixels(&mid, after));
}

/// The same pixels written to pixel buffers that show the same, the last of
/// them refused, leave the buffers showing the same.
pub proof fn lemma_buffer_refusals<'a>(
    first: &BufferTarget<'a>,
    second: &BufferTarget<'a>,
    plots: Seq<Plot>,
    first_after: &BufferTarget<'a>,
    second_after: &BufferTarget<'a>,
)
    requires
        same_pixels(first, second),
        refused(first, plots, first_after),
        refused(second, plots, second_after),
    ensures
        same_pixels(first_after, second_after),
{
    lemma_refused_outside(first, plots, first_after);
    lemma_refused_outside(second, plots, second_after);
    let one = choose|mid: BufferTarget<'a>| #[trigger]
        plotted(first, plots.drop_last(), &mid) && same_pixels(&mid, first_after);
    let other = choose|mid: BufferTarget<'a>| #[trigger]
        plotted(second, plots.drop_last(), &mid) && same_pixels(&mid, second_after);
    lemma_buffer_plots(first, second, plots.drop_last(), &one, &other);
}

/// The pixel that a bitmap glyph puts down at `(ox, oy)`.
pub open spec fn ink_plot(ox: int, oy: int, color: u32) -> Plot {
    Plot { x: ox as u32, y: oy as u32, color: opaque(color) }
}

/// A row of plots holds the plot of each of its inked pixels.
proof fn lemma_row_has(
    glyph: &Glyph,
    dst_x: i32,
    dst_y: i32,
    color: u32,
    oy: int,
    x0: int,
    x: int,
    px: int,
)
    requires
        x0 <= px < x,
        ink(glyph, dst_x, dst_y, px, oy),
    ensures
        row_plots(glyph, dst_x, dst_y, color, oy, x0, x).contains(ink_plot(px, oy, color)),
    decreases x - x0,
{
    let here = row_plots(glyph, dst_x, dst_y, color, oy, x0, x);
    let before = row_plots(glyph, dst_x, dst_y, color, oy, x0, x - 1);
    let plot = ink_plot(px, oy, color);
    if px == x - 1 {
        assert(here == before.push(plot));
        assert(here[before.len() as int] == plot);
    } else {
        lemma_row_has(glyph, dst_x, dst_y, color, oy, x0, x - 1, px);
        let i = choose|i: int| 0 <= i < before.len() && before[i] == plot;
        assert(here[i] == plot);
    }
}

/// Rows of plots hold the plot of each of their inked pixels.
proof fn lemma_rows_have(
    glyph: &Glyph,
    dst_x: i32,
    dst_y: i32,
    color: u32,
    x0: int,
    x1: int,
    y0: int,
    y: int,
    px: int,
    py: int,
)
    requires
        y0 <= py < y,
        x0 <= px < x1,
        ink(glyph, dst_x, dst_y, px, py),
    ensures
        rows_plots(glyph, dst_x, dst_y, color, x0, x1, y0, y).contains(ink_plot(px, py, color)),
    decreases y - y0,
{
    let above = rows_plots(glyph, dst_x, dst_y, color, x0, x1, y0, y - 1);
    let row = row_plots(glyph, dst_x, dst_y, color, y - 1, x0, x1);
    let here = rows_plots(glyph, dst_x, dst_y, color, x0, x1, y0, y);
    let plot = ink_plot(px, py, color);
    assert(here == above + row);
    if py == y - 1 {
        lemma_row_has(glyph, dst_x, dst_y, color, py, x0, x1, px);
        let i = choose|i: int| 0 <= i < row.len() && row[i] == plot;
        assert(here[above.len() + i] == plot);
    } else {
        lemma_rows_have(glyph, dst_x, dst_y, color, x0, x1, y0, y - 1, px, py);
        let i = choose|i: int| 0 <= i < above.len() && above[i] == plot;
        assert(here[i] == plot);
    }
}

/// An inked pixel that the scan has passed is among the plots.
proof fn lemma_ink_is_plotted(
    glyph: &Glyph,
    dst_x: i32,
    dst_y: i32,
    color: u32,
    rect: ClipRect,
    px: int,
    py: int,
    qx: int,
    qy: int,
)
    requires
        rect.y0 <= py,
        scanned_before(rect, px, py, qx, qy),
        ink(glyph, dst_x, dst_y, px, py),
    ensures
        plots_before(glyph, dst_x, dst_y, color, rect, qx, qy).contains(ink_plot(px, py, color)),
{
    let rows = rows_plots(
        glyph,
        dst_x,
        dst_y,
        color,
        rect.x0 as int,
        rect.x1 as int,
        rect.y0 as int,
        qy,
    );
    let row = row_plots(glyph, dst_x, dst_y, color, qy, rect.x0 as int, qx);
    let all = plots_before(glyph, dst_x, dst_y, color, rect, qx, qy);
    let plot = ink_plot(px, py, color);
    if py < qy {
        lemma_rows_have(
            glyph,
            dst_x,
            dst_y,
            color,
            rect.x0 as int,
            rect.x1 as int,
            rect.y0 as int,
            qy,
            px,
            py,
        );
        let i = choose|i: int| 0 <= i < rows.len() && rows[i] == plot;
        assert(all[i] == plot);
    } else {
        lemma_row_has(glyph, dst_x, dst_y, color, qy, rect.x0 as int, qx, px);
        let i = choose|i: int| 0 <= i < row.len() && row[i] == plot;
        assert(all[rows.len() + i] == plot);
    }
}

/// How the drawing of a bitmap glyph ended: at the end of the scan, at a
/// pixel that the glyph does not have, or at a pixel that the target refused.
pub open spec fn bitmap_ended<T: RenderTarget>(
    before: &T,
    after: &T,
    glyph: &Glyph,
    dst_x: i32,
    dst_y: i32,
    color: u32,
    rect: ClipRect,
    result: Result<(), GlyphrError>,
    ox: int,
    oy: int,
) -> bool {
    &&& readable_before(glyph, dst_x, dst_y, rect, ox, oy)
    &&& match result {
        Ok(_) => {
            &&& ox == rect.x0
            &&& oy == rect.y1
            &&& plotted(before, plots_before(glyph, dst_x, dst_y, color, rect, ox, oy), after)
        },
        Err(GlyphrError::OutOfBounds) => {
            &&& rect.x0 <= ox < rect.x1
            &&& rect.y0 <= oy < rect.y1
            &&& !readable(glyph, dst_x, dst_y, ox, oy)
            &&& plotted(before, plots_before(glyph, dst_x, dst_y, color, rect, ox, oy), after)
        },
        Err(GlyphrError::InvalidTarget) => {
            &&& rect.x0 <= ox < rect.x1
            &&& rect.y0 <= oy < rect.y1
            &&& ink(glyph, dst_x, dst_y, ox, oy)
            &&& refused(
                before,
                plots_before(glyph, dst_x, dst_y, color, rect, ox, oy).push(
                    ink_plot(ox, oy, color),
                ),
                after,
            )
        },
        Err(GlyphrError::InvalidGlyph(_)) => false,
    }
}

/// The drawing of a bitmap glyph ended somewhere.
proof fn lemma_bitmap_end<T: RenderTarget>(
    before: &T,
    after: &T,
    glyph: &Glyph,
    dst_x: i32,
    dst_y: i32,
    color: u32,
    rect: ClipRect,
    result: Result<(), GlyphrError>,
) -> (end: (int, int))
    requires
        bitmap_drawn(before, after, glyph, dst_x, dst_y, color, Some(rect), result),
    ensures
        bitmap_ended(before, after, glyph, dst_x, dst_y, color, rect, result, end.0, end.1),
{
    match result {
        Ok(_) => (rect.x0 as int, rect.y1 as int),
        Err(GlyphrError::OutOfBounds) => {
            let (ox, oy) = choose|ox: int, oy: int|
                {
                    &&& rect.x0 <= ox < rect.x1
                    &&& rect.y0 <= oy < rect.y1
                    &&& readable_before(glyph, dst_x, dst_y, rect, ox, oy)
                    &&& !readable(glyph, dst_x, dst_y, ox, oy)
                    &&& plotted(
                        before,
                        #[trigger] plots_before(glyph, dst_x, dst_y, color, rect, ox, oy),
                        after,
                    )
                };
            (ox, oy)
        },
        Err(GlyphrError::InvalidTarget) => {
            let (ox, oy) = choose|ox: int, oy: int|
                {
                    &&& rect.x0 <= ox < rect.x1
                    &&& rect.y0 <= oy < rect.y1
                    &&& readable_before(glyph, dst_x, dst_y, rect, ox, oy)
                    &&& ink(glyph, dst_x, dst_y, ox, oy)
                    &&& refused(
                        before,
                        (#[trigger] plots_before(glyph, dst_x, dst_y, color, rect, ox, oy)).push(
                            Plot { x: ox as u32, y: oy as u32, color: opaque(color) },
                        ),
                        after,
                    )
                };
            (ox, oy)
        },
        Err(GlyphrError::InvalidGlyph(_)) => (0, 0),
    }
}

/// On pixel buffers of one size, a drawing of a bitmap glyph does not go on
/// beyond the place where another one ended.
proof fn lemma_bitmap_not_beyond<'a>(
    b1: &BufferTarget<'a>,
    a1: &BufferTarget<'a>,
    b2: &BufferTarget<'a>,
    a2: &BufferTarget<'a>,
    glyph: &Glyph,
    dst_x: i32,
    dst_y: i32,
    color: u32,
    rect: ClipRect,
    r1: Result<(), GlyphrError>,
    r2: Result<(), GlyphrError>,
    p: (int, int),
    q: (int, int),
)
    requires
        same_frame(b1, b2),
        rect.x0 < rect.x1,
        rect.y0 < rect.y1,
        bitmap_ended(b1, a1, glyph, dst_x, dst_y, color, rect, r1, p.0, p.1),
        bitmap_ended(b2, a2, glyph, dst_x, dst_y, color, rect, r2, q.0, q.1),
    ensures
        !scanned_before(rect, p.0, p.1, q.0, q.1),
{
    if scanned_before(rect, p.0, p.1, q.0, q.1) {
        // the second drawing passed the place where the first one ended
        assert(readable(glyph, dst_x, dst_y, p.0, p.1));
        match r1 {
            Err(GlyphrError::InvalidTarget) => {
                let plot = ink_plot(p.0, p.1, color);
                lemma_refused_outside(
                    b1,
                    plots_before(glyph, dst_x, dst_y, color, rect, p.0, p.1).push(plot),
                    a1,
                );
                lemma_ink_is_plotted(glyph, dst_x, dst_y, color, rect, p.0, p.1, q.0, q.1);
                let passed = plots_before(glyph, dst_x, dst_y, color, rect, q.0, q.1);
                let i = choose|i: int| 0 <= i < passed.len() && passed[i] == plot;
                match r2 {
                    Err(GlyphrError::InvalidTarget) => {
                        let all = passed.push(ink_plot(q.0, q.1, color));
                        lemma_refused_outside(b2, all, a2);
                        assert(all[i] == plot);
                        assert(takes(b2, all[i]));
                    },
                    _ => {
                        lemma_plotted_taken(b2, passed, a2);
                        assert(takes(b2, passed[i]));
                    },
                }
            },
            _ => {},
        }
    }
}

/// A bitmap glyph drawn over the same rectangle of pixel buffers that show
/// the same leaves them showing the same, with the same result.
pub proof fn lemma_bitmap_again<'a>(
    b1: &BufferTarget<'a>,
    a1: &BufferTarget<'a>,
    b2: &BufferTarget<'a>,
    a2: &BufferTarget<'a>,
    glyph: &Glyph,
    dst_x: i32,
    dst_y: i32,
    color: u32,
    rect: Option<ClipRect>,
    r1: Result<(), GlyphrError>,
    r2: Result<(), GlyphrError>,
)
    requires
        same_pixels(b1, b2),
        rect matches Some(r) ==> r.x0 < r.x1 && r.y0 < r.y1,
        bitmap_drawn(b1, a1, glyph, dst_x, dst_y, color, rect, r1),
        bitmap_drawn(b2, a2, glyph, dst_x, dst_y, color, rect, r2),
    ensures
        r1 == r2,
        same_pixels(a1, a2),
{
    if let Some(rect) = rect {
        let p = lemma_bitmap_end(b1, a1, glyph, dst_x, dst_y, color, rect, r1);
        let q = lemma_bitmap_end(b2, a2, glyph, dst_x, dst_y, color, rect, r2);
        lemma_bitmap_not_beyond(b1, a1, b2, a2, glyph, dst_x, dst_y, color, rect, r1, r2, p, q);
        lemma_bitmap_not_beyond(b2, a2, b1, a1, glyph, dst_x, dst_y, color, rect, r2, r1, q, p);
        assert(p == q);
        let passed = plots_before(glyph, dst_x, dst_y, color, rect, p.0, p.1);
        match r1 {
            Err(GlyphrError::InvalidTarget) => {
                let all = passed.push(ink_plot(p.0, p.1, color));
                assert(r2 is Err && r2->Err_0 == GlyphrError::InvalidTarget);
                lemma_buffer_refusals(b1, b2, all, a1, a2);
            },
            Err(GlyphrError::OutOfBounds) => {
                assert(r2 is Err && r2->Err_0 == GlyphrError::OutOfBounds);
                lemma_buffer_plots(b1, b2, passed, a1, a2);
            },
            Err(GlyphrError::InvalidGlyph(_)) => {},
            Ok(_) => {
                assert(r2 is Ok);
                lemma_buffer_plots(b1, b2, passed, a1, a2);
            },
        }
    }
    if r1 is Ok && r2 is Ok {
        assert(r1->Ok_0 == r2->Ok_0);
    }
}

/// The locator gives one place for one pixel.
pub open spec fn locates_once<W, L: Fn(i32, i32, i32) -> (usize, W)>(locate: &L) -> bool {
    forall|offset: i32, out_size: i32, src_size: i32, a: (usize, W), b: (usize, W)|
        #![trigger call_ensures(*locate, (offset, out_size, src_size), a), call_ensures(*locate, (offset, out_size, src_size), b)]
        call_ensures(*locate, (offset, out_size, src_size), a) && call_ensures(
            *locate,
            (offset, out_size, src_size),
            b,
        ) ==> a == b
}

/// The shader gives one coverage for one pixel.
pub open spec fn shades_once<W, S: Fn(Neighbors, W, W) -> u8>(shade: &S) -> bool {
    forall|found: Neighbors, wx: W, wy: W, a: u8, b: u8|
        #![trigger call_ensures(*shade, (found, wx, wy), a), call_ensures(*shade, (found, wx, wy), b)]
        call_ensures(*shade, (found, wx, wy), a) && call_ensures(*shade, (found, wx, wy), b) ==> a
            == b
}

/// The pixel that a covered pixel puts down.
pub open spec fn coverage_plot(x: int, y: int, alpha: u8, color: u32) -> Plot {
    Plot { x: x as u32, y: y as u32, color: coverage_color(alpha, color) }
}

/// A locator that gives one place places a row or column once.
proof fn lemma_located_once<W, L: Fn(i32, i32, i32) -> (usize, W)>(
    locate: &L,
    offset: int,
    out_size: i32,
    src_size: i32,
    at1: int,
    w1: W,
    at2: int,
    w2: W,
)
    requires
        locates_once(locate),
        located(locate, offset, out_size, src_size, at1, w1),
        located(locate, offset, out_size, src_size, at2, w2),
    ensures
        at1 == at2,
        w1 == w2,
{
    let raw1 = choose|raw: usize| #[trigger]
        call_ensures(*locate, (offset as i32, out_size, src_size), (raw, w1)) && at1
            == kept_inside(raw, src_size as int);
    let raw2 = choose|raw: usize| #[trigger]
        call_ensures(*locate, (offset as i32, out_size, src_size), (raw, w2)) && at2
            == kept_inside(raw, src_size as int);
    assert((raw1, w1) == (raw2, w2));
}

/// A locator and a shader that give one answer shade a pixel once.
proof fn lemma_shaded_once<W, L: Fn(i32, i32, i32) -> (usize, W), S: Fn(Neighbors, W, W) -> u8>(
    locate: &L,
    shade: &S,
    glyph: &Glyph,
    out_w: i32,
    column: int,
    top: int,
    wy: W,
    a1: u8,
    a2: u8,
)
    requires
        locates_once(locate),
        shades_once(shade),
        pixel_shaded(locate, shade, glyph, out_w, column, top, wy, a1),
        pixel_shaded(locate, shade, glyph, out_w, column, top, wy, a2),
    ensures
        a1 == a2,
{
    let (left1, wx1) = choose|left: int, wx: W| #[trigger]
        located(locate, column, out_w, glyph.width, left, wx) && call_ensures(
            *shade,
            (
                neighbors_at(
                    glyph.bitmap@,
                    glyph.width as int,
                    glyph.height as int,
                    left,
                    top,
                ),
                wx,
                wy,
            ),
            a1,
        );
    let (left2, wx2) = choose|left: int, wx: W| #[trigger]
        located(locate, column, out_w, glyph.width, left, wx) && call_ensures(
            *shade,
            (
                neighbors_at(
                    glyph.bitmap@,
                    glyph.width as int,
                    glyph.height as int,
                    left,
                    top,
                ),
                wx,
                wy,
            ),
            a2,
        );
    lemma_located_once(locate, column, out_w, glyph.width, left1, wx1, left2, wx2);
}

/// Two shadings of one row agree where both have a pixel.
proof fn lemma_rows_agree<W, L: Fn(i32, i32, i32) -> (usize, W), S: Fn(Neighbors, W, W) -> u8>(
    locate: &L,
    shade: &S,
    glyph: &Glyph,
    dst_x: i32,
    dst_y: i32,
    out_w: i32,
    out_h: i32,
    rect: ClipRect,
    r: int,
    one: ShadedRow<W>,
    other: ShadedRow<W>,
)
    requires
        locates_once(locate),
        shades_once(shade),
        row_shaded(locate, shade, glyph, dst_x, dst_y, out_w, out_h, rect, r, one),
        row_shaded(locate, shade, glyph, dst_x, dst_y, out_w, out_h, rect, r, other),
    ensures
        one.top == other.top,
        one.weight == other.weight,
        forall|c: int|
            0 <= c < one.alphas.len() && c < other.alphas.len() ==> #[trigger] one.alphas[c]
                == other.alphas[c],
        one.alphas.len() == other.alphas.len() ==> one == other,
{
    lemma_located_once(
        locate,
        rect.y0 + r - dst_y,
        out_h,
        glyph.height,
        one.top,
        one.weight,
        other.top,
        other.weight,
    );
    assert forall|c: int| 0 <= c < one.alphas.len() && c < other.alphas.len() implies #[trigger] one.alphas[c]
        == other.alphas[c] by {
        lemma_shaded_once(
            locate,
            shade,
            glyph,
            out_w,
            rect.x0 + c - dst_x,
            one.top,
            one.weight,
            one.alphas[c],
            other.alphas[c],
        );
    }
    if one.alphas.len() == other.alphas.len() {
        assert(one.alphas =~= other.alphas);
    }
}

/// A row of coverages puts down the plot of each covered pixel.
proof fn lemma_coverage_has(alphas: Seq<u8>, x0: int, oy: int, color: u32, c: int)
    requires
        0 <= c < alphas.len(),
        alphas[c] != 0,
    ensures
        coverage_plots(alphas, x0, oy, color).contains(
            coverage_plot(x0 + c, oy, alphas[c], color),
        ),
    decreases alphas.len(),
{
    let here = coverage_plots(alphas, x0, oy, color);
    let before = coverage_plots(alphas.drop_last(), x0, oy, color);
    let plot = coverage_plot(x0 + c, oy, alphas[c], color);
    if c == alphas.len() - 1 {
        assert(here == before.push(plot));
        assert(here[before.len() as int] == plot);
    } else {
        assert(alphas.drop_last()[c] == alphas[c]);
        lemma_coverage_has(alphas.drop_last(), x0, oy, color, c);
        let i = choose|i: int| 0 <= i < before.len() && before[i] == plot;
        assert(here[i] == plot);
    }
}

/// Shaded rows put down the plot of each covered pixel.
proof fn lemma_shaded_has<W>(rows: Seq<ShadedRow<W>>, x0: int, y0: int, color: u32, r: int, c: int)
    requires
        0 <= r < rows.len(),
        0 <= c < rows[r].alphas.len(),
        rows[r].alphas[c] != 0,
    ensures
        shaded_plots(rows, x0, y0, color).contains(
            coverage_plot(x0 + c, y0 + r, rows[r].alphas[c], color),
        ),
    decreases rows.len(),
{
    let here = shaded_plots(rows, x0, y0, color);
    let above = shaded_plots(rows.drop_last(), x0, y0, color);
    let row = coverage_plots(rows.last().alphas, x0, y0 + rows.len() - 1, color);
    let plot = coverage_plot(x0 + c, y0 + r, rows[r].alphas[c], color);
    assert(here == above + row);
    if r == rows.len() - 1 {
        lemma_coverage_has(rows.last().alphas, x0, y0 + r, color, c);
        let i = choose|i: int| 0 <= i < row.len() && row[i] == plot;
        assert(here[above.len() + i] == plot);
    } else {
        assert(rows.drop_last()[r] == rows[r]);
        lemma_shaded_has(rows.drop_last(), x0, y0, color, r, c);
        let i = choose|i: int| 0 <= i < above.len() && above[i] == plot;
        assert(here[i] == plot);
    }
}

/// The last of the plots of shaded rows whose last pixel is covered is the
/// plot of that pixel.
proof fn lemma_shaded_last<W>(rows: Seq<ShadedRow<W>>, x0: int, y0: int, color: u32)
    requires
        rows.len() > 0,
        rows.last().alphas.len() > 0,
        rows.last().alphas.last() != 0,
    ensures
        shaded_plots(rows, x0, y0, color).len() > 0,
        shaded_plots(rows, x0, y0, color).last() == coverage_plot(
            x0 + rows.last().alphas.len() - 1,
            y0 + rows.len() - 1,
            rows.last().alphas.last(),
            color,
        ),
{
    let alphas = rows.last().alphas;
    let row = coverage_plots(alphas, x0, y0 + rows.len() - 1, color);
    let above = shaded_plots(rows.drop_last(), x0, y0, color);
    assert(row == coverage_plots(alphas.drop_last(), x0, y0 + rows.len() - 1, color).push(
        coverage_plot(x0 + alphas.len() - 1, y0 + rows.len() - 1, alphas.last(), color),
    ));
    assert(shaded_plots(rows, x0, y0, color) == above + row);
}

/// The shape of a shading: how many rows it has, all of them full but the
/// last, and how many pixels the last one has.
pub open spec fn shading_shape<W>(rows: Seq<ShadedRow<W>>, rect: ClipRect, last: int) -> bool {
    &&& rows.len() <= rect.y1 - rect.y0
    &&& forall|r: int|
        0 <= r < rows.len() - 1 ==> (#[trigger] rows[r]).alphas.len() == rect.x1 - rect.x0
    &&& rows.len() > 0 ==> rows.last().alphas.len() == last && 0 < last <= rect.x1 - rect.x0
}

/// How the drawing of a distance-field glyph ended: with the shading `rows`,
/// at the end of the scan or at a pixel that the target refused.
pub open spec fn sdf_ended<
    T: RenderTarget,
    W,
    L: Fn(i32, i32, i32) -> (usize, W),
    S: Fn(Neighbors, W, W) -> u8,
>(
    before: &T,
    after: &T,
    glyph: &Glyph,
    dst_x: i32,
    dst_y: i32,
    out_w: i32,
    out_h: i32,
    color: u32,
    locate: &L,
    shade: &S,
    rect: ClipRect,
    result: Result<(), GlyphrError>,
    rows: Seq<ShadedRow<W>>,
) -> bool {
    &&& forall|r: int|
        0 <= r < rows.len() ==> row_shaded(
            locate,
            shade,
            glyph,
            dst_x,
            dst_y,
            out_w,
            out_h,
            rect,
            r,
            #[trigger] rows[r],
        )
    &&& match result {
        Ok(_) => {
            &&& rows.len() == rect.y1 - rect.y0
            &&& shading_shape(rows, rect, rect.x1 - rect.x0)
            &&& plotted(before, shaded_plots(rows, rect.x0 as int, rect.y0 as int, color), after)
        },
        Err(error) => {
            &&& error == GlyphrError::InvalidTarget
            &&& rows.len() > 0
            &&& shading_shape(rows, rect, rows.last().alphas.len() as int)
            &&& rows.last().alphas.last() != 0
            &&& refused(before, shaded_plots(rows, rect.x0 as int, rect.y0 as int, color), after)
        },
    }
}

/// The drawing of a distance-field glyph ended with some shading.
proof fn lemma_sdf_end<
    T: RenderTarget,
    W,
    L: Fn(i32, i32, i32) -> (usize, W),
    S: Fn(Neighbors, W, W) -> u8,
>(
    before: &T,
    after: &T,
    glyph: &Glyph,
    dst_x: i32,
    dst_y: i32,
    out_w: i32,
    out_h: i32,
    color: u32,
    locate: &L,
    shade: &S,
    rect: ClipRect,
    result: Result<(), GlyphrError>,
) -> (rows: Seq<ShadedRow<W>>)
    requires
        rect.x0 < rect.x1,
        rect.y0 < rect.y1,
        sdf_drawn(
            before,
            after,
            glyph,
            dst_x,
            dst_y,
            out_w,
            out_h,
            color,
            locate,
            shade,
            Some(rect),
            result,
        ),
    ensures
        sdf_ended(
            before,
            after,
            glyph,
            dst_x,
            dst_y,
            out_w,
            out_h,
            color,
            locate,
            shade,
            rect,
            result,
            rows,
        ),
{
    let rows = choose|rows: Seq<ShadedRow<W>>|
        {
            &&& forall|r: int|
                0 <= r < rows.len() ==> row_shaded(
                    locate,
                    shade,
                    glyph,
                    dst_x,
                    dst_y,
                    out_w,
                    out_h,
                    rect,
                    r,
                    #[trigger] rows[r],
                )
            &&& match result {
                Ok(_) => {
                    &&& rows.len() == rect.y1 - rect.y0
                    &&& forall|r: int|
                        0 <= r < rows.len() ==> (#[trigger] rows[r]).alphas.len() == rect.x1
                            - rect.x0
                    &&& plotted(
                        before,
                        #[trigger] shaded_plots(rows, rect.x0 as int, rect.y0 as int, color),
                        after,
                    )
                },
                Err(error) => {
                    &&& error == GlyphrError::InvalidTarget
                    &&& 0 < rows.len() <= rect.y1 - rect.y0
                    &&& forall|r: int|
                        0 <= r < rows.len() - 1 ==> (#[trigger] rows[r]).alphas.len() == rect.x1
                            - rect.x0
                    &&& 0 < rows.last().alphas.len() <= rect.x1 - rect.x0
                    &&& rows.last().alphas.last() != 0
                    &&& refused(
                        before,
                        #[trigger] shaded_plots(rows, rect.x0 as int, rect.y0 as int, color),
                        after,
                    )
                },
            }
        };
    rows
}

/// On pixel buffers of one size, a drawing of a distance-field glyph does
/// not go on beyond the pixel that ended another one.
proof fn lemma_sdf_not_beyond<
    'a,
    W,
    L: Fn(i32, i32, i32) -> (usize, W),
    S: Fn(Neighbors, W, W) -> u8,
>(
    b1: &BufferTarget<'a>,
    a1: &BufferTarget<'a>,
    b2: &BufferTarget<'a>,
    a2: &BufferTarget<'a>,
    glyph: &Glyph,
    dst_x: i32,
    dst_y: i32,
    out_w: i32,
    out_h: i32,
    color: u32,
    locate: &L,
    shade: &S,
    rect: ClipRect,
    r1: Result<(), GlyphrError>,
    r2: Result<(), GlyphrError>,
    rows1: Seq<ShadedRow<W>>,
    rows2: Seq<ShadedRow<W>>,
)
    requires
        same_frame(b1, b2),
        locates_once(locate),
        shades_once(shade),
        0 <= rect.x0 < rect.x1,
        0 <= rect.y0 < rect.y1,
        r1 is Err,
        sdf_ended(b1, a1, glyph, dst_x, dst_y, out_w, out_h, color, locate, shade, rect, r1, rows1),
        sdf_ended(b2, a2, glyph, dst_x, dst_y, out_w, out_h, color, locate, shade, rect, r2, rows2),
    ensures
        r2 is Err,
        !(rows1.len() < rows2.len()),
        !(rows1.len() == rows2.len() && rows1.last().alphas.len() < rows2.last().alphas.len()),
{
    let r = rows1.len() - 1;
    let c = rows1.last().alphas.len() - 1;
    let alpha = rows1.last().alphas.last();
    let plot = coverage_plot(rect.x0 + c, rect.y0 + r, alpha, color);
    let plots1 = shaded_plots(rows1, rect.x0 as int, rect.y0 as int, color);
    let plots2 = shaded_plots(rows2, rect.x0 as int, rect.y0 as int, color);
    lemma_refused_outside(b1, plots1, a1);
    lemma_shaded_last(rows1, rect.x0 as int, rect.y0 as int, color);
    assert(!takes(b2, plot));
    let beyond = r2 is Ok || rows1.len() < rows2.len() || (rows1.len() == rows2.len()
        && rows1.last().alphas.len() < rows2.last().alphas.len());
    if beyond {
        assert(0 <= r < rows2.len());
        assert(0 <= c < rows2[r].alphas.len());
        lemma_rows_agree(
            locate,
            shade,
            glyph,
            dst_x,
            dst_y,
            out_w,
            out_h,
            rect,
            r,
            rows1[r],
            rows2[r],
        );
        assert(rows2[r].alphas[c] == alpha);
        lemma_shaded_has(rows2, rect.x0 as int, rect.y0 as int, color, r, c);
        let i = choose|i: int| 0 <= i < plots2.len() && plots2[i] == plot;
        if r2 is Ok {
            lemma_plotted_taken(b2, plots2, a2);
            assert(takes(b2, plots2[i]));
        } else {
            lemma_refused_outside(b2, plots2, a2);
            lemma_shaded_last(rows2, rect.x0 as int, rect.y0 as int, color);
            if i < plots2.len() - 1 {
                assert(takes(b2, plots2[i]));
            } else {
                let r_last = rows2.len() - 1;
                let c_last = rows2.last().alphas.len() - 1;
                assert(plot.x == (rect.x0 + c_last) as u32);
                assert(plot.y == (rect.y0 + r_last) as u32);
            }
        }
    }
}

/// A distance-field glyph drawn over the same rectangle of pixel buffers
/// that show the same, with a locator and a shader that give one answer,
/// leaves the buffers showing the same, with the same result.
pub proof fn lemma_sdf_again<
    'a,
    W,
    L: Fn(i32, i32, i32) -> (usize, W),
    S: Fn(Neighbors, W, W) -> u8,
>(
    b1: &BufferTarget<'a>,
    a1: &BufferTarget<'a>,
    b2: &BufferTarget<'a>,
    a2: &BufferTarget<'a>,
    glyph: &Glyph,
    dst_x: i32,
    dst_y: i32,
    out_w: i32,
    out_h: i32,
    color: u32,
    locate: &L,
    shade: &S,
    rect: Option<ClipRect>,
    r1: Result<(), GlyphrError>,
    r2: Result<(), GlyphrError>,
)
    requires
        same_pixels(b1, b2),
        locates_once(locate),
        shades_once(shade),
        rect matches Some(r) ==> 0 <= r.x0 < r.x1 && 0 <= r.y0 < r.y1,
        sdf_drawn(b1, a1, glyph, dst_x, dst_y, out_w, out_h, color, locate, shade, rect, r1),
        sdf_drawn(b2, a2, glyph, dst_x, dst_y, out_w, out_h, color, locate, shade, rect, r2),
    ensures
        r1 == r2,
        same_pixels(a1, a2),
{
    if let Some(rect) = rect {
        let rows1 = lemma_sdf_end(
            b1,
            a1,
            glyph,
            dst_x,
            dst_y,
            out_w,
            out_h,
            color,
            locate,
            shade,
            rect,
            r1,
        );
        let rows2 = lemma_sdf_end(
            b2,
            a2,
            glyph,
            dst_x,
            dst_y,
            out_w,
            out_h,
            color,
            locate,
            shade,
            rect,
            r2,
        );
        if r1 is Err {
            lemma_sdf_not_beyond(
                b1,
                a1,
                b2,
                a2,
                glyph,
                dst_x,
                dst_y,
                out_w,
                out_h,
                color,
                locate,
                shade,
                rect,
                r1,
                r2,
                rows1,
                rows2,
            );
        }
        if r2 is Err {
            lemma_sdf_not_beyond(
                b2,
                a2,
                b1,
                a1,
                glyph,
                dst_x,
                dst_y,
                out_w,
                out_h,
                color,
                locate,
                shade,
                rect,
                r2,
                r1,
                rows2,
                rows1,
            );
        }
        assert(rows1.len() == rows2.len());
        assert forall|r: int| 0 <= r < rows1.len() implies #[trigger] rows1[r] == rows2[r] by {
            lemma_rows_agree(
                locate,
                shade,
                glyph,
                dst_x,
                dst_y,
                out_w,
                out_h,
                rect,
                r,
                rows1[r],
                rows2[r],
            );
            if r < rows1.len() - 1 {
                assert(rows1[r].alphas.len() == rect.x1 - rect.x0);
                assert(rows2[r].alphas.len() == rect.x1 - rect.x0);
            }
        }
        assert(rows1 =~= rows2);
        let plots = shaded_plots(rows1, rect.x0 as int, rect.y0 as int, color);
        if r1 is Err {
            assert(r1->Err_0 == r2->Err_0);
            lemma_buffer_refusals(b1, b2, plots, a1, a2);
        } else {
            lemma_buffer_plots(b1, b2, plots, a1, a2);
        }
    }
    if r1 is Ok && r2 is Ok {
        assert(r1->Ok_0 == r2->Ok_0);
    }
}

/// A glyph drawn at the same place of pixel buffers that show the same, with
/// a locator and a shader that give one answer, leaves the buffers showing
/// the same, with the same result.
pub proof fn lemma_glyph_again<
    'a,
    W,
    L: Fn(i32, i32, i32) -> (usize, W),
    S: Fn(Neighbors, W, W) -> u8,
>(
    b1: &BufferTarget<'a>,
    a1: &BufferTarget<'a>,
    b2: &BufferTarget<'a>,
    a2: &BufferTarget<'a>,
    glyph: &Glyph,
    format: BitmapFormat,
    x: i32,
    y: i32,
    out_w: i32,
    out_h: i32,
    color: u32,
    locate: &L,
    shade: &S,
    r1: Result<(), GlyphrError>,
    r2: Result<(), GlyphrError>,
)
    requires
        same_pixels(b1, b2),
        locates_once(locate),
        shades_once(shade),
        glyph_drawn(b1, a1, glyph, format, x, y, out_w, out_h, color, locate, shade, r1),
        glyph_drawn(b2, a2, glyph, format, x, y, out_w, out_h, color, locate, shade, r2),
    ensures
        r1 == r2,
        same_pixels(a1, a2),
{
    let size = (b1.width, b1.height);
    match format {
        BitmapFormat::SDF => {
            if !(out_w <= 0 || out_h <= 0 || glyph.width <= 0 || glyph.height <= 0) {
                let rect = clip(x, y, out_w, out_h, size);
                lemma_clip_inside(x, y, out_w, out_h, size);
                lemma_sdf_again(
                    b1,
                    a1,
                    b2,
                    a2,
                    glyph,
                    x,
                    y,
                    out_w,
                    out_h,
                    color,
                    locate,
                    shade,
                    rect,
                    r1,
                    r2,
                );
            }
        },
        BitmapFormat::Bitmap => {
            if !(glyph.width <= 0 || glyph.height <= 0) {
                let rect = clip(x, y, glyph.width, glyph.height, size);
                lemma_clip_inside(x, y, glyph.width, glyph.height, size);
                lemma_bitmap_again(b1, a1, b2, a2, glyph, x, y, color, rect, r1, r2);
            }
        },
    }
    if r1 is Ok && r2 is Ok {
        assert(r1->Ok_0 == r2->Ok_0);
    }
}

/// How the rendering of a text ended: after the glyphs of its first `k`
/// characters, which took the target through `states`.
pub open spec fn text_ended<
    T: RenderTarget,
    W,
    L: Fn(i32, i32, i32) -> (usize, W),
    S: Fn(Neighbors, W, W) -> u8,
>(
    before: &T,
    after: &T,
    font: &Font,
    scaled: Seq<ScaledGlyph>,
    offsets: VerticalOffsets,
    text: Seq<char>,
    x: i32,
    y: i32,
    align: TextAlign,
    color: u32,
    locate: &L,
    shade: &S,
    result: Result<(), GlyphrError>,
    states: Seq<T>,
    k: int,
) -> bool {
    &&& 0 <= k <= text.len()
    &&& all_found(font, text, k)
    &&& text_trace(states, k, font, scaled, offsets, text, x, y, align, color, locate, shade)
    &&& states.first() == *before
    &&& match result {
        Ok(_) => k == text.len() && states.last() == *after,
        Err(error) => k < text.len() && if font.has_glyph(text[k]) {
            text_step(
                states.push(*after),
                k,
                font,
                scaled,
                offsets,
                text,
                x,
                y,
                align,
                color,
                locate,
                shade,
                Err::<(), GlyphrError>(error),
            )
        } else {
            error == GlyphrError::InvalidGlyph(text[k]) && states.last() == *after
        },
    }
}

/// The rendering of a text ended somewhere.
proof fn lemma_text_end<
    T: RenderTarget,
    W,
    L: Fn(i32, i32, i32) -> (usize, W),
    S: Fn(Neighbors, W, W) -> u8,
>(
    before: &T,
    after: &T,
    font: &Font,
    scaled: Seq<ScaledGlyph>,
    offsets: VerticalOffsets,
    text: Seq<char>,
    x: i32,
    y: i32,
    align: TextAlign,
    color: u32,
    locate: &L,
    shade: &S,
    result: Result<(), GlyphrError>,
) -> (end: (Seq<T>, int))
    requires
        text_rendered(
            before,
            after,
            font,
            scaled,
            offsets,
            text,
            x,
            y,
            align,
            color,
            locate,
            shade,
            result,
        ),
    ensures
        text_ended(
            before,
            after,
            font,
            scaled,
            offsets,
            text,
            x,
            y,
            align,
            color,
            locate,
            shade,
            result,
            end.0,
            end.1,
        ),
{
    match result {
        Ok(_) => {
            let states = choose|states: Seq<T>|
                {
                    &&& #[trigger] text_trace(
                        states,
                        text.len() as int,
                        font,
                        scaled,
                        offsets,
                        text,
                        x,
                        y,
                        align,
                        color,
                        locate,
                        shade,
                    )
                    &&& states.first() == *before
                    &&& states.last() == *after
                };
            (states, text.len() as int)
        },
        Err(error) => {
            let (states, k) = choose|states: Seq<T>, k: int|
                {
                    &&& 0 <= k < text.len()
                    &&& all_found(font, text, k)
                    &&& #[trigger] text_trace(
                        states,
                        k,
                        font,
                        scaled,
                        offsets,
                        text,
                        x,
                        y,
                        align,
                        color,
                        locate,
                        shade,
                    )
                    &&& states.first() == *before
                    &&& if font.has_glyph(text[k]) {
                        text_step(
                            states.push(*after),
                            k,
                            font,
                            scaled,
                            offsets,
                            text,
                            x,
                            y,
                            align,
                            color,
                            locate,
                            shade,
                            Err::<(), GlyphrError>(error),
                        )
                    } else {
                        error == GlyphrError::InvalidGlyph(text[k]) && states.last() == *after
                    }
                };
            (states, k)
        },
    }
}

/// Two renderings of one text on pixel buffers that show the same take the
/// buffers through states that show the same, glyph by glyph.
proof fn lemma_text_traces<
    'a,
    W,
    L: Fn(i32, i32, i32) -> (usize, W),
    S: Fn(Neighbors, W, W) -> u8,
>(
    one: Seq<BufferTarget<'a>>,
    other: Seq<BufferTarget<'a>>,
    n1: int,
    n2: int,
    font: &Font,
    scaled: Seq<ScaledGlyph>,
    offsets: VerticalOffsets,
    text: Seq<char>,
    x: i32,
    y: i32,
    align: TextAlign,
    color: u32,
    locate: &L,
    shade: &S,
    k: int,
)
    requires
        locates_once(locate),
        shades_once(shade),
        text_trace(one, n1, font, scaled, offsets, text, x, y, align, color, locate, shade),
        text_trace(other, n2, font, scaled, offsets, text, x, y, align, color, locate, shade),
        same_pixels(&one[0], &other[0]),
        0 <= k <= n1,
        k <= n2,
    ensures
        same_pixels(&one[k], &other[k]),
    decreases k,
{
    if k > 0 {
        lemma_text_traces(
            one,
            other,
            n1,
            n2,
            font,
            scaled,
            offsets,
            text,
            x,
            y,
            align,
            color,
            locate,
            shade,
            k - 1,
        );
        let ok = Ok::<(), GlyphrError>(());
        assert(text_step(
            one,
            k - 1,
            font,
            scaled,
            offsets,
            text,
            x,
            y,
            align,
            color,
            locate,
            shade,
            ok,
        ));
        assert(text_step(
            other,
            k - 1,
            font,
            scaled,
            offsets,
            text,
            x,
            y,
            align,
            color,
            locate,
            shade,
            ok,
        ));
        let i = font.index_of(text[k - 1]);
        lemma_glyph_again(
            &one[k - 1],
            &one[k],
            &other[k - 1],
            &other[k],
            &font.glyphs@[i],
            font.format,
            (pen_before(font, scaled, text, x, k - 1) - line_shift(
                font,
                scaled,
                text,
                align,
            )) as i32,
            (y + offsets.select(align.vertical) + scaled[i].rise) as i32,
            scaled[i].width,
            scaled[i].height,
            color,
            locate,
            shade,
            ok,
            ok,
        );
    }
}

/// A rendering of a text does not go on beyond the glyph that ended another
/// one.
proof fn lemma_text_not_beyond<
    'a,
    W,
    L: Fn(i32, i32, i32) -> (usize, W),
    S: Fn(Neighbors, W, W) -> u8,
>(
    b1: &BufferTarget<'a>,
    a1: &BufferTarget<'a>,
    b2: &BufferTarget<'a>,
    a2: &BufferTarget<'a>,
    font: &Font,
    scaled: Seq<ScaledGlyph>,
    offsets: VerticalOffsets,
    text: Seq<char>,
    x: i32,
    y: i32,
    align: TextAlign,
    color: u32,
    locate: &L,
    shade: &S,
    r1: Result<(), GlyphrError>,
    r2: Result<(), GlyphrError>,
    end1: (Seq<BufferTarget<'a>>, int),
    end2: (Seq<BufferTarget<'a>>, int),
)
    requires
        same_pixels(b1, b2),
        locates_once(locate),
        shades_once(shade),
        text_ended(
            b1,
            a1,
            font,
            scaled,
            offsets,
            text,
            x,
            y,
            align,
            color,
            locate,
            shade,
            r1,
            end1.0,
            end1.1,
        ),
        text_ended(
            b2,
            a2,
            font,
            scaled,
            offsets,
            text,
            x,
            y,
            align,
            color,
            locate,
            shade,
            r2,
            end2.0,
            end2.1,
        ),
    ensures
        !(end1.1 < end2.1),
{
    let (one, k) = end1;
    let (other, n) = end2;
    if k < n {
        lemma_text_traces(
            one,
            other,
            k,
            n,
            font,
            scaled,
            offsets,
            text,
            x,
            y,
            align,
            color,
            locate,
            shade,
            k,
        );
        assert(font.has_glyph(text[k]));
        let error = r1->Err_0;
        let ended = one.push(*a1);
        assert(ended[k] == one[k]);
        assert(ended[k + 1] == *a1);
        assert(text_step(
            other,
            k,
            font,
            scaled,
            offsets,
            text,
            x,
            y,
            align,
            color,
            locate,
            shade,
            Ok::<(), GlyphrError>(()),
        ));
        let i = font.index_of(text[k]);
        lemma_glyph_again(
            &one[k],
            a1,
            &other[k],
            &other[k + 1],
            &font.glyphs@[i],
            font.format,
            (pen_before(font, scaled, text, x, k) - line_shift(
                font,
                scaled,
                text,
                align,
            )) as i32,
            (y + offsets.select(align.vertical) + scaled[i].rise) as i32,
            scaled[i].width,
            scaled[i].height,
            color,
            locate,
            shade,
            Err::<(), GlyphrError>(error),
            Ok::<(), GlyphrError>(()),
        );
    }
}

/// Rendering again gives the same. A text rendered onto pixel buffers that
/// show the same, from the same font at the same place, with a locator and a
/// shader that give one answer to one question, leaves the buffers showing
/// the same, and returns the same.
pub proof fn lemma_text_again<
    'a,
    W,
    L: Fn(i32, i32, i32) -> (usize, W),
    S: Fn(Neighbors, W, W) -> u8,
>(
    b1: &BufferTarget<'a>,
    a1: &BufferTarget<'a>,
    b2: &BufferTarget<'a>,
    a2: &BufferTarget<'a>,
    font: &Font,
    scaled: Seq<ScaledGlyph>,
    offsets: VerticalOffsets,
    text: Seq<char>,
    x: i32,
    y: i32,
    align: TextAlign,
    color: u32,
    locate: &L,
    shade: &S,
    r1: Result<(), GlyphrError>,
    r2: Result<(), GlyphrError>,
)
    requires
        same_pixels(b1, b2),
        locates_once(locate),
        shades_once(shade),
        text_rendered(b1, a1, font, scaled, offsets, text, x, y, align, color, locate, shade, r1),
        text_rendered(b2, a2, font, scaled, offsets, text, x, y, align, color, locate, shade, r2),
    ensures
        r1 == r2,
        same_pixels(a1, a2),
{
    let end1 = lemma_text_end(
        b1,
        a1,
        font,
        scaled,
        offsets,
        text,
        x,
        y,
        align,
        color,
        locate,
        shade,
        r1,
    );
    let end2 = lemma_text_end(
        b2,
        a2,
        font,
        scaled,
        offsets,
        text,
        x,
        y,
        align,
        color,
        locate,
        shade,
        r2,
    );
    lemma_text_not_beyond(
        b1,
        a1,
        b2,
        a2,
        font,
        scaled,
        offsets,
        text,
        x,
        y,
        align,
        color,
        locate,
        shade,
        r1,
        r2,
        end1,
        end2,
    );
    lemma_text_not_beyond(
        b2,
        a2,
        b1,
        a1,
        font,
        scaled,
        offsets,
        text,
        x,
        y,
        align,
        color,
        locate,
        shade,
        r2,
        r1,
        end2,
        end1,
    );
    let (one, k) = end1;
    let (other, n) = end2;
    assert(k == n);
    lemma_text_traces(
        one,
        other,
        k,
        k,
        font,
        scaled,
        offsets,
        text,
        x,
        y,
        align,
        color,
        locate,
        shade,
        k,
    );
    if k < text.len() {
        if font.has_glyph(text[k]) {
            let i = font.index_of(text[k]);
            let ended1 = one.push(*a1);
            let ended2 = other.push(*a2);
            assert(ended1[k] == one[k] && ended1[k + 1] == *a1);
            assert(ended2[k] == other[k] && ended2[k + 1] == *a2);
            lemma_glyph_again(
                &one[k],
                a1,
                &other[k],
                a2,
                &font.glyphs@[i],
                font.format,
                (pen_before(font, scaled, text, x, k) - line_shift(
                    font,
                    scaled,
                    text,
                    align,
                )) as i32,
                (y + offsets.select(align.vertical) + scaled[i].rise) as i32,
                scaled[i].width,
                scaled[i].height,
                color,
                locate,
                shade,
                r1,
                r2,
            );
        }
    } else {
        assert(r1->Ok_0 == r2->Ok_0);
    }
}

} // verus!
