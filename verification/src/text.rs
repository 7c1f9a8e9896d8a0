//! Rendering text: one glyph by its character, and a line of glyphs along
//! the pen.

use crate::api::{GlyphrError, RenderTarget, TextAlign};
use crate::font::{AlignH, BitmapFormat, Font, Glyph};
use crate::layout::{
    check_phrase, horizontal_offset, horizontal_shift, phrase_fits, phrase_length, phrase_sum,
    vertical_offset, Pen, ScaledGlyph, VerticalOffsets,
};
use crate::renderer::{bitmap_glyph_drawn, render_glyph_bitmap};
use crate::sampler::Neighbors;
use crate::sdf::{render_glyph_sdf, sdf_glyph_drawn};
use vstd::prelude::*;

verus! {

/// What drawing one glyph at `(x, y)` does to a target, in the way of the
/// font's format. `out_w` and `out_h` are the glyph's box at the render size;
/// a bitmap glyph is drawn at the size it was compiled for.
pub open spec fn glyph_drawn<
    T: RenderTarget,
    W,
    L: Fn(i32, i32, i32) -> (usize, W),
    S: Fn(Neighbors, W, W) -> u8,
>(
    before: &T,
    after: &T,
    glyph: &Glyph,
    format: BitmapFormat,
    x: i32,
    y: i32,
    out_w: i32,
    out_h: i32,
    color: u32,
    locate: &L,
    shade: &S,
    result: Result<(), GlyphrError>,
) -> bool {
    match format {
        BitmapFormat::SDF => sdf_glyph_drawn(
            before,
            after,
            glyph,
            x,
            y,
            out_w,
            out_h,
            color,
            locate,
            shade,
            result,
        ),
        BitmapFormat::Bitmap => bitmap_glyph_drawn(before, after, glyph, x, y, color, result),
    }
}

/// The raster of a glyph can be indexed: its number of samples fits `usize`.
pub open spec fn raster_fits(glyph: &Glyph) -> bool {
    glyph.width > 0 && glyph.height > 0 ==> glyph.width * glyph.height <= usize::MAX
}

/// Every raster of a font can be indexed.
pub open spec fn rasters_fit(font: &Font) -> bool {
    forall|i: int| 0 <= i < font.glyphs@.len() ==> raster_fits(#[trigger] &font.glyphs@[i])
}

/// Whether the raster of a glyph can be indexed: see [`raster_fits`].
pub fn check_raster(glyph: &Glyph) -> (fits: bool)
    ensures
        fits == raster_fits(glyph),
{
    if glyph.width <= 0 || glyph.height <= 0 {
        return true;
    }
    proof {
        assert(0 < glyph.width * glyph.height <= 0x7fff_ffff * 0x7fff_ffff) by (nonlinear_arith)
            requires
                0 < glyph.width <= 0x7fff_ffff,
                0 < glyph.height <= 0x7fff_ffff,
        ;
    }
    (glyph.width as u64) * (glyph.height as u64) <= usize::MAX as u64
}

/// Whether every raster of a font can be indexed: see [`rasters_fit`].
pub fn check_rasters(font: &Font) -> (fit: bool)
    ensures
        fit == rasters_fit(font),
{
    let mut i: usize = 0;
    while i < font.glyphs.len()
        invariant
            i <= font.glyphs@.len(),
            forall|j: int| 0 <= j < i ==> raster_fits(#[trigger] &font.glyphs@[j]),
        decreases font.glyphs@.len() - i,
    {
        if !check_raster(&font.glyphs[i]) {
            return false;
        }
        i = i + 1;
    }
    true
}

/// Draws one glyph with the top left corner of its box at `(x, y)`.
pub fn draw_glyph<
    T: RenderTarget,
    W: Copy,
    L: Fn(i32, i32, i32) -> (usize, W),
    S: Fn(Neighbors, W, W) -> u8,
>(
    x: i32,
    y: i32,
    glyph: &Glyph,
    format: BitmapFormat,
    out_w: i32,
    out_h: i32,
    color: u32,
    locate: &L,
    shade: &S,
    target: &mut T,
) -> (result: Result<(), GlyphrError>)
    requires
        raster_fits(glyph),
        forall|offset: i32, out_size: i32, src_size: i32|
            call_requires(*locate, (offset, out_size, src_size)),
        forall|found: Neighbors, wx: W, wy: W| call_requires(*shade, (found, wx, wy)),
    ensures
        glyph_drawn(
            old(target),
            final(target),
            glyph,
            format,
            x,
            y,
            out_w,
            out_h,
            color,
            locate,
            shade,
            result,
        ),
{
    match format {
        BitmapFormat::SDF => render_glyph_sdf(
            x,
            y,
            glyph,
            out_w,
            out_h,
            color,
            locate,
            shade,
            target,
        ),
        BitmapFormat::Bitmap => render_glyph_bitmap(x, y, glyph, color, target),
    }
}

/// Draws the glyph of `value` with the top left corner of its box at
/// `(x, y)`. A character without a glyph is `InvalidGlyph` and leaves the
/// target as it was.
pub fn render_glyph<
    T: RenderTarget,
    W: Copy,
    L: Fn(i32, i32, i32) -> (usize, W),
    S: Fn(Neighbors, W, W) -> u8,
>(
    x: i32,
    y: i32,
    value: char,
    font: Font,
    scaled: &[ScaledGlyph],
    color: u32,
    locate: &L,
    shade: &S,
    target: &mut T,
) -> (result: Result<(), GlyphrError>)
    requires
        scaled@.len() == font.glyphs@.len(),
        rasters_fit(&font),
        forall|offset: i32, out_size: i32, src_size: i32|
            call_requires(*locate, (offset, out_size, src_size)),
        forall|found: Neighbors, wx: W, wy: W| call_requires(*shade, (found, wx, wy)),
    ensures
        result matches Err(GlyphrError::InvalidGlyph(c)) ==> c == value && *final(target) == *old(
            target,
        ),
        !(result matches Err(GlyphrError::InvalidGlyph(_))) ==> exists|i: int|
            #[trigger] font.glyph_at(i, value) && glyph_drawn(
                old(target),
                final(target),
                &font.glyphs@[i],
                font.format,
                x,
                y,
                scaled@[i].width,
                scaled@[i].height,
                color,
                locate,
                shade,
                result,
            ),
        font.is_sorted() ==> (result matches Err(GlyphrError::InvalidGlyph(_))
            <==> !font.has_glyph(value)),
{
    match font.find_index(value) {
        Some(i) => {
            let drawn = draw_glyph(
                x,
                y,
                &font.glyphs[i],
                font.format,
                scaled[i].width,
                scaled[i].height,
                color,
                locate,
                shade,
                target,
            );
            proof {
                assert(font.glyph_at(i as int, value));
                font.lemma_unique(i as int, value);
            }
            drawn
        },
        None => Err(GlyphrError::InvalidGlyph(value)),
    }
}

/// Each of the first `k` characters of a text has a glyph.
pub open spec fn all_found(font: &Font, text: Seq<char>, k: int) -> bool {
    forall|j: int| 0 <= j < k ==> font.has_glyph(#[trigger] text[j])
}

/// A number is in the range of the coordinates.
pub open spec fn in_range(v: int) -> bool {
    i32::MIN <= v <= i32::MAX
}

/// Where the pen stands before character `k` of a text that starts at `x`.
pub open spec fn pen_before(
    font: &Font,
    scaled: Seq<ScaledGlyph>,
    text: Seq<char>,
    x: i32,
    k: int,
) -> int {
    x + phrase_sum(font, scaled, text.take(k))
}

/// How far alignment moves a text to the left.
pub open spec fn line_shift(
    font: &Font,
    scaled: Seq<ScaledGlyph>,
    text: Seq<char>,
    align: TextAlign,
) -> int {
    horizontal_shift(align.horizontal, phrase_sum(font, scaled, text))
}

/// The place of character `k` of a text and the pen behind it are in the
/// range of the coordinates.
pub open spec fn glyph_fits(
    font: &Font,
    scaled: Seq<ScaledGlyph>,
    offsets: VerticalOffsets,
    text: Seq<char>,
    x: i32,
    y: i32,
    align: TextAlign,
    k: int,
) -> bool {
    let metrics = scaled[font.index_of(text[k])];
    &&& in_range(pen_before(font, scaled, text, x, k) - line_shift(font, scaled, text, align))
    &&& in_range(y + offsets.select(align.vertical) + metrics.rise)
    &&& in_range(pen_before(font, scaled, text, x, k) + metrics.advance)
}

/// A text anchored at `(x, y)` can be laid out: the top of the line, the
/// length of the text where the alignment asks for it, and the place of each
/// glyph up to the first character without one are in the range of the
/// coordinates.
pub open spec fn line_fits(
    font: &Font,
    scaled: Seq<ScaledGlyph>,
    offsets: VerticalOffsets,
    text: Seq<char>,
    x: i32,
    y: i32,
    align: TextAlign,
) -> bool {
    &&& in_range(y + offsets.select(align.vertical))
    &&& align.horizontal != AlignH::Left ==> phrase_fits(font, scaled, text)
    &&& forall|k: int|
        0 <= k < text.len() && all_found(font, text, k + 1) ==> #[trigger] glyph_fits(
            font,
            scaled,
            offsets,
            text,
            x,
            y,
            align,
            k,
        )
}

/// Whether a text anchored at `(x, y)` can be laid out: see [`line_fits`].
pub fn check_line(
    text: &str,
    font: Font,
    scaled: &[ScaledGlyph],
    offsets: VerticalOffsets,
    x: i32,
    y: i32,
    align: TextAlign,
) -> (fits: bool)
    requires
        font.is_sorted(),
        scaled@.len() == font.glyphs@.len(),
    ensures
        fits == line_fits(&font, scaled@, offsets, text@, x, y, align),
{
    let line_y: i64 = y as i64 + vertical_offset(align.vertical, offsets) as i64;
    if line_y < i32::MIN as i64 || line_y > i32::MAX as i64 {
        return false;
    }
    let shift: i64 = match align.horizontal {
        AlignH::Left => 0,
        AlignH::Center => {
            if !check_phrase(text, font, scaled) {
                return false;
            }
            horizontal_offset(AlignH::Center, phrase_length(text, font, scaled)) as i64
        },
        AlignH::Right => {
            if !check_phrase(text, font, scaled) {
                return false;
            }
            horizontal_offset(AlignH::Right, phrase_length(text, font, scaled)) as i64
        },
    };
    let mut pen: i64 = x as i64;
    proof {
        assert(text@.take(0) =~= Seq::<char>::empty());
    }
    for c in it: text.chars()
        invariant
            it.seq() == text@,
            font.is_sorted(),
            scaled@.len() == font.glyphs@.len(),
            in_range(y + offsets.select(align.vertical)),
            line_y == y + offsets.select(align.vertical),
            align.horizontal != AlignH::Left ==> phrase_fits(&font, scaled@, text@),
            shift == line_shift(&font, scaled@, text@, align),
            in_range(shift as int),
            in_range(pen as int),
            pen == pen_before(&font, scaled@, text@, x, it.index() as int),
            all_found(&font, text@, it.index() as int),
            forall|j: int|
                0 <= j < it.index() ==> #[trigger] glyph_fits(
                    &font,
                    scaled@,
                    offsets,
                    text@,
                    x,
                    y,
                    align,
                    j,
                ),
    {
        let ghost k = it.index() as int;
        proof {
            let longer = text@.take(k + 1);
            assert(longer.drop_last() =~= text@.take(k));
            assert(longer.last() == c);
        }
        match font.find_index(c) {
            None => {
                proof {
                    assert forall|j: int|
                        0 <= j < text@.len() && all_found(&font, text@, j + 1) implies #[trigger] glyph_fits(
                        &font,
                        scaled@,
                        offsets,
                        text@,
                        x,
                        y,
                        align,
                        j,
                    ) by {
                        if j >= k {
                            assert(font.has_glyph(text@[k]));
                        }
                    }
                }
                return true;
            },
            Some(i) => {
                let metrics = scaled[i];
                let left = pen - shift;
                let top = line_y + metrics.rise as i64;
                let next = pen + metrics.advance as i64;
                proof {
                    assert(font.has_glyph(c));
                    assert(all_found(&font, text@, k + 1));
                }
                if left < i32::MIN as i64 || left > i32::MAX as i64 || top < i32::MIN as i64 || top
                    > i32::MAX as i64 || next < i32::MIN as i64 || next > i32::MAX as i64 {
                    proof {
                        assert(!glyph_fits(&font, scaled@, offsets, text@, x, y, align, k));
                    }
                    return false;
                }
                pen = next;
            },
        }
    }
    true
}

/// Drawing the glyph of character `k` of a text takes a target from
/// `states[k]` to `states[k + 1]` and returns `result`.
pub open spec fn text_step<
    T: RenderTarget,
    W,
    L: Fn(i32, i32, i32) -> (usize, W),
    S: Fn(Neighbors, W, W) -> u8,
>(
    states: Seq<T>,
    k: int,
    font: &Font,
    scaled: Seq<ScaledGlyph>,
    offsets: VerticalOffsets,
    text: Seq<char>,
    x: i32,
    y: i32,
    align: TextAlign,
    color: u32,
    locate: &L,
    shade: &S,
    result: Result<(), GlyphrError>,
) -> bool {
    let i = font.index_of(text[k]);
    glyph_drawn(
        &states[k],
        &states[k + 1],
        &font.glyphs@[i],
        font.format,
        (pen_before(font, scaled, text, x, k) - line_shift(font, scaled, text, align)) as i32,
        (y + offsets.select(align.vertical) + scaled[i].rise) as i32,
        scaled[i].width,
        scaled[i].height,
        color,
        locate,
        shade,
        result,
    )
}

/// `states` are the states that a target goes through while the glyphs of
/// the first `n` characters of a text are drawn, each of them to its end.
pub open spec fn text_trace<
    T: RenderTarget,
    W,
    L: Fn(i32, i32, i32) -> (usize, W),
    S: Fn(Neighbors, W, W) -> u8,
>(
    states: Seq<T>,
    n: int,
    font: &Font,
    scaled: Seq<ScaledGlyph>,
    offsets: VerticalOffsets,
    text: Seq<char>,
    x: i32,
    y: i32,
    align: TextAlign,
    color: u32,
    locate: &L,
    shade: &S,
) -> bool {
    &&& states.len() == n + 1
    &&& forall|k: int|
        0 <= k < n ==> #[trigger] text_step(
            states,
            k,
            font,
            scaled,
            offsets,
            text,
            x,
            y,
            align,
            color,
            locate,
            shade,
            Ok::<(), GlyphrError>(()),
        )
}

/// What rendering a text does to a target, and what it returns. The glyphs
/// are drawn one after the other along the pen. The first character without
/// a glyph ends the rendering with `InvalidGlyph`, and so does the first
/// glyph that cannot be drawn to its end, with the error of that glyph.
pub open spec fn text_rendered<
    T: RenderTarget,
    W,
    L: Fn(i32, i32, i32) -> (usize, W),
    S: Fn(Neighbors, W, W) -> u8,
>(
    before: &T,
    after: &T,
    font: &Font,
    scaled: Seq<ScaledGlyph>,
    offsets: VerticalOffsets,
    text: Seq<char>,
    x: i32,
    y: i32,
    align: TextAlign,
    color: u32,
    locate: &L,
    shade: &S,
    result: Result<(), GlyphrError>,
) -> bool {
    match result {
        Ok(_) => {
            &&& all_found(font, text, text.len() as int)
            &&& exists|states: Seq<T>|
                {
                    &&& #[trigger] text_trace(
                        states,
                        text.len() as int,
                        font,
                        scaled,
                        offsets,
                        text,
                        x,
                        y,
                        align,
                        color,
                        locate,
                        shade,
                    )
                    &&& states.first() == *before
                    &&& states.last() == *after
                }
        },
        Err(error) => exists|states: Seq<T>, k: int|
            {
                &&& 0 <= k < text.len()
                &&& all_found(font, text, k)
                &&& #[trigger] text_trace(
                    states,
                    k,
                    font,
                    scaled,
                    offsets,
                    text,
                    x,
                    y,
                    align,
                    color,
                    locate,
                    shade,
                )
                &&& states.first() == *before
                &&& if font.has_glyph(text[k]) {
                    text_step(
                        states.push(*after),
                        k,
                        font,
                        scaled,
                        offsets,
                        text,
                        x,
                        y,
                        align,
                        color,
                        locate,
                        shade,
                        Err::<(), GlyphrError>(error),
                    )
                } else {
                    error == GlyphrError::InvalidGlyph(text[k]) && states.last() == *after
                }
            },
    }
}

/// Renders a line of text anchored at `(x, y)`.
///
/// `scaled` holds the metrics of the font's glyphs at the render size, in
/// table order, and `offsets` the vertical offset of the line for each
/// alignment. `locate` and `shade` are the locator and the shader of
/// distance-field glyphs; a bitmap font does not call them.
pub fn render<
    T: RenderTarget,
    W: Copy,
    L: Fn(i32, i32, i32) -> (usize, W),
    S: Fn(Neighbors, W, W) -> u8,
>(
    target: &mut T,
    text: &str,
    font: Font,
    scaled: &[ScaledGlyph],
    offsets: VerticalOffsets,
    x: i32,
    y: i32,
    align: TextAlign,
    color: u32,
    locate: &L,
    shade: &S,
) -> (result: Result<(), GlyphrError>)
    requires
        font.is_sorted(),
        scaled@.len() == font.glyphs@.len(),
        rasters_fit(&font),
        line_fits(&font, scaled@, offsets, text@, x, y, align),
        forall|offset: i32, out_size: i32, src_size: i32|
            call_requires(*locate, (offset, out_size, src_size)),
        forall|found: Neighbors, wx: W, wy: W| call_requires(*shade, (found, wx, wy)),
    ensures
        text_rendered(
            old(target),
            final(target),
            &font,
            scaled@,
            offsets,
            text@,
            x,
            y,
            align,
            color,
            locate,
            shade,
            result,
        ),
{
    let length = match align.horizontal {
        AlignH::Left => 0,
        AlignH::Center => phrase_length(text, font, scaled),
        AlignH::Right => phrase_length(text, font, scaled),
    };
    let mut pen = Pen::start(x, y, align, length, offsets);
    let ghost before = *target;
    let ghost mut states: Seq<T> = seq![before];
    let ghost shift = line_shift(&font, scaled@, text@, align);
    proof {
        assert(text@.take(0) =~= Seq::<char>::empty());
    }
    for c in it: text.chars()
        invariant
            it.seq() == text@,
            before == *old(target),
            font.is_sorted(),
            scaled@.len() == font.glyphs@.len(),
            rasters_fit(&font),
            line_fits(&font, scaled@, offsets, text@, x, y, align),
            forall|offset: i32, out_size: i32, src_size: i32|
                call_requires(*locate, (offset, out_size, src_size)),
            forall|found: Neighbors, wx: W, wy: W| call_requires(*shade, (found, wx, wy)),
            shift == line_shift(&font, scaled@, text@, align),
            pen.x == pen_before(&font, scaled@, text@, x, it.index() as int),
            pen.x_offset == shift,
            pen.y == y + offsets.select(align.vertical),
            all_found(&font, text@, it.index() as int),
            text_trace(
                states,
                it.index() as int,
                &font,
                scaled@,
                offsets,
                text@,
                x,
                y,
                align,
                color,
                locate,
                shade,
            ),
            states.first() == before,
            states.last() == *target,
    {
        let ghost k = it.index() as int;
        proof {
            assert(text@[k] == c);
            let longer = text@.take(k + 1);
            assert(longer.drop_last() =~= text@.take(k));
            assert(longer.last() == c);
            if font.has_glyph(c) {
                assert(all_found(&font, text@, k + 1));
                assert(glyph_fits(&font, scaled@, offsets, text@, x, y, align, k));
            }
        }
        let placement = match pen.place(&font, scaled, c) {
            Ok(placement) => placement,
            Err(error) => {
                return Err(error);
            },
        };
        let ghost mid = *target;
        let drawn = draw_glyph(
            placement.x,
            placement.y,
            &font.glyphs[placement.index],
            font.format,
            scaled[placement.index].width,
            scaled[placement.index].height,
            color,
            locate,
            shade,
            target,
        );
        proof {
            let longer = states.push(*target);
            assert(text_step(
                longer,
                k,
                &font,
                scaled@,
                offsets,
                text@,
                x,
                y,
                align,
                color,
                locate,
                shade,
                drawn,
            ));
            if drawn is Ok {
                assert forall|j: int| 0 <= j < k + 1 implies #[trigger] text_step(
                    longer,
                    j,
                    &font,
                    scaled@,
                    offsets,
                    text@,
                    x,
                    y,
                    align,
                    color,
                    locate,
                    shade,
                    Ok::<(), GlyphrError>(()),
                ) by {
                    if j < k {
                        assert(text_step(
                            states,
                            j,
                            &font,
                            scaled@,
                            offsets,
                            text@,
                            x,
                            y,
                            align,
                            color,
                            locate,
                            shade,
                            Ok::<(), GlyphrError>(()),
                        ));
                        assert(longer[j] == states[j]);
                        assert(longer[j + 1] == states[j + 1]);
                    }
                }
            }
        }
        match drawn {
            Ok(_) => {},
            Err(error) => {
                return Err(error);
            },
        }
        proof {
            states = states.push(*target);
        }
    }
    proof {
        assert(text@.take(text@.len() as int) =~= text@);
    }
    Ok(())
}

} // verus!
