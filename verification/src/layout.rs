//! Laying out one line of text: where each glyph goes and how far the pen
//! moves. Everything here works on metrics that are already at the size the
//! text is rendered in.

use crate::api::{GlyphrError, TextAlign};
use crate::font::{AlignH, AlignV, Font, Glyph};
use vstd::prelude::*;

verus! {

/// The metrics of one glyph at the render size.
#[derive(Clone, Copy, Debug, PartialEq, Eq)]
pub struct ScaledGlyph {
    /// How far the pen moves after the glyph.
    pub advance: i32,
    /// How far the top of the glyph's box lies below the top of the line.
    pub rise: i32,
    /// The width of the glyph's box.
    pub width: i32,
    /// The height of the glyph's box.
    pub height: i32,
}

/// The vertical offset of a line at the render size, for each alignment.
#[derive(Clone, Copy, Debug, PartialEq, Eq)]
pub struct VerticalOffsets {
    pub top: i32,
    pub center: i32,
    pub baseline: i32,
}

/// Where one glyph goes: the glyph's position in the font's table and the
/// target pixel of the top left corner of its box.
#[derive(Clone, Copy, Debug, PartialEq, Eq)]
pub struct Placement {
    pub index: usize,
    pub x: i32,
    pub y: i32,
}

/// The pen that walks along a line of text.
#[derive(Clone, Copy, Debug, PartialEq, Eq)]
pub struct Pen {
    /// Where the next glyph starts, before alignment.
    pub x: i32,
    /// How far alignment moves the line to the left.
    pub x_offset: i32,
    /// The top of the line.
    pub y: i32,
}

/// A quotient rounded towards zero.
pub open spec fn half(length: int) -> int {
    if length >= 0 {
        length / 2
    } else {
        -((-length) / 2)
    }
}

/// How far a phrase of the given length is moved to the left, so that the
/// anchor is at its left end, its middle or its right end.
pub open spec fn horizontal_shift(align: AlignH, length: int) -> int {
    match align {
        AlignH::Left => 0,
        AlignH::Center => half(length),
        AlignH::Right => length,
    }
}

impl VerticalOffsets {
    /// The offset for an alignment.
    pub open spec fn select(&self, align: AlignV) -> i32 {
        match align {
            AlignV::Top => self.top,
            AlignV::Center => self.center,
            AlignV::Baseline => self.baseline,
        }
    }
}

/// The height of a line of the font, at the size the font was compiled for.
pub fn line_height(font: &Font) -> (height: i64)
    ensures
        height == font.ascent - font.descent,
{
    font.ascent as i64 - font.descent as i64
}

/// How far the top of a glyph's box lies below the top of the line, at the
/// size the font was compiled for.
pub fn glyph_rise(font: &Font, glyph: &Glyph) -> (rise: i64)
    ensures
        rise == font.ascent - glyph.ymin - glyph.height,
{
    font.ascent as i64 - glyph.ymin as i64 - glyph.height as i64
}

/// See [`horizontal_shift`].
pub fn horizontal_offset(align: AlignH, length: i32) -> (shift: i32)
    ensures
        shift == horizontal_shift(align, length as int),
{
    match align {
        AlignH::Center => length / 2,
        AlignH::Right => length,
        AlignH::Left => 0,
    }
}

/// See [`VerticalOffsets::select`].
pub fn vertical_offset(align: AlignV, offsets: VerticalOffsets) -> (shift: i32)
    ensures
        shift == offsets.select(align),
{
    match align {
        AlignV::Top => offsets.top,
        AlignV::Center => offsets.center,
        AlignV::Baseline => offsets.baseline,
    }
}

/// The advance of the glyph of `c` at the render size, where `scaled` holds
/// the metrics of the font's glyphs in table order; 0 for a character
/// without a glyph.
pub open spec fn scaled_advance(font: &Font, scaled: Seq<ScaledGlyph>, c: char) -> int {
    if font.has_glyph(c) {
        scaled[font.index_of(c)].advance as int
    } else {
        0
    }
}

/// The sum of the advances of the characters of a phrase.
pub open spec fn phrase_sum(font: &Font, scaled: Seq<ScaledGlyph>, phrase: Seq<char>) -> int
    decreases phrase.len(),
{
    if phrase.len() == 0 {
        0
    } else {
        phrase_sum(font, scaled, phrase.drop_last()) + scaled_advance(font, scaled, phrase.last())
    }
}

/// The length of every start of the phrase fits the pen.
pub open spec fn phrase_fits(font: &Font, scaled: Seq<ScaledGlyph>, phrase: Seq<char>) -> bool {
    forall|k: int|
        0 <= k <= phrase.len() ==> i32::MIN <= #[trigger] phrase_sum(font, scaled, phrase.take(k))
            <= i32::MAX
}

/// The length of a phrase at the render size: the sum of the advances of its
/// characters, a character without a glyph counting 0.
pub fn phrase_length(phrase: &str, font: Font, scaled: &[ScaledGlyph]) -> (length: i32)
    requires
        font.is_sorted(),
        scaled@.len() == font.glyphs@.len(),
        phrase_fits(&font, scaled@, phrase@),
    ensures
        length == phrase_sum(&font, scaled@, phrase@),
{
    let mut tot: i32 = 0;
    proof {
        assert(phrase@.take(0) =~= Seq::<char>::empty());
    }
    for c in it: phrase.chars()
        invariant
            it.seq() == phrase@,
            font.is_sorted(),
            scaled@.len() == font.glyphs@.len(),
            phrase_fits(&font, scaled@, phrase@),
            tot == phrase_sum(&font, scaled@, phrase@.take(it.index() as int)),
    {
        let ghost k = it.index() as int;
        proof {
            let longer = phrase@.take(k + 1);
            assert(longer.drop_last() =~= phrase@.take(k));
            assert(longer.last() == c);
            assert(i32::MIN <= phrase_sum(&font, scaled@, longer) <= i32::MAX);
        }
        let step = match font.find_index(c) {
            Some(i) => scaled[i].advance,
            None => 0,
        };
        tot = tot + step;
    }
    proof {
        assert(phrase@.take(phrase@.len() as int) =~= phrase@);
    }
    tot
}

/// Whether the length of every start of the phrase fits the pen: see
/// [`phrase_fits`].
pub fn check_phrase(phrase: &str, font: Font, scaled: &[ScaledGlyph]) -> (fits: bool)
    requires
        font.is_sorted(),
        scaled@.len() == font.glyphs@.len(),
    ensures
        fits == phrase_fits(&font, scaled@, phrase@),
{
    let mut tot: i64 = 0;
    proof {
        assert(phrase@.take(0) =~= Seq::<char>::empty());
    }
    for c in it: phrase.chars()
        invariant
            it.seq() == phrase@,
            font.is_sorted(),
            scaled@.len() == font.glyphs@.len(),
            tot == phrase_sum(&font, scaled@, phrase@.take(it.index() as int)),
            forall|j: int|
                0 <= j <= it.index() ==> i32::MIN <= #[trigger] phrase_sum(
                    &font,
                    scaled@,
                    phrase@.take(j),
                ) <= i32::MAX,
    {
        let ghost k = it.index() as int;
        proof {
            let longer = phrase@.take(k + 1);
            assert(longer.drop_last() =~= phrase@.take(k));
            assert(longer.last() == c);
        }
        let step = match font.find_index(c) {
            Some(i) => scaled[i].advance,
            None => 0,
        };
        tot = tot + step as i64;
        if tot < i32::MIN as i64 || tot > i32::MAX as i64 {
            proof {
                assert(tot == phrase_sum(&font, scaled@, phrase@.take(k + 1)));
            }
            return false;
        }
    }
    true
}

impl Pen {
    /// The pen at the start of a phrase of the given length, anchored at
    /// `(x, y)`.
    pub fn start(x: i32, y: i32, align: TextAlign, length: i32, offsets: VerticalOffsets) -> (pen:
        Pen)
        requires
            i32::MIN <= y + offsets.select(align.vertical) <= i32::MAX,
        ensures
            pen.x == x,
            pen.x_offset == horizontal_shift(align.horizontal, length as int),
            pen.y == y + offsets.select(align.vertical),
    {
        Pen {
            x,
            x_offset: horizontal_offset(align.horizontal, length),
            y: y + vertical_offset(align.vertical, offsets),
        }
    }

    /// The next character can be placed: it has no glyph, or its place and
    /// the pen's next position are in range.
    pub open spec fn can_place(&self, font: &Font, scaled: Seq<ScaledGlyph>, c: char) -> bool {
        font.has_glyph(c) ==> {
            let metrics = scaled[font.index_of(c)];
            &&& i32::MIN <= self.x - self.x_offset <= i32::MAX
            &&& i32::MIN <= self.y + metrics.rise <= i32::MAX
            &&& i32::MIN <= self.x + metrics.advance <= i32::MAX
        }
    }

    /// Places the glyph of `c` and moves the pen behind it. A character
    /// without a glyph is `InvalidGlyph` and leaves the pen where it is.
    pub fn place(&mut self, font: &Font, scaled: &[ScaledGlyph], c: char) -> (placed: Result<
        Placement,
        GlyphrError,
    >)
        requires
            font.is_sorted(),
            scaled@.len() == font.glyphs@.len(),
            old(self).can_place(font, scaled@, c),
        ensures
            !font.has_glyph(c) ==> placed == Err::<Placement, GlyphrError>(
                GlyphrError::InvalidGlyph(c),
            ) && *final(self) == *old(self),
            font.has_glyph(c) ==> {
                let index = font.index_of(c);
                &&& placed == Ok::<Placement, GlyphrError>(
                    Placement {
                        index: index as usize,
                        x: (old(self).x - old(self).x_offset) as i32,
                        y: (old(self).y + scaled@[index].rise) as i32,
                    },
                )
                &&& final(self).x == old(self).x + scaled@[index].advance
                &&& final(self).x_offset == old(self).x_offset
                &&& final(self).y == old(self).y
            },
    {
        match font.find_index(c) {
            Some(index) => {
                let metrics = scaled[index];
                let placement = Placement {
                    index,
                    x: self.x - self.x_offset,
                    y: self.y + metrics.rise,
                };
                self.x = self.x + metrics.advance;
                Ok(placement)
            },
            None => Err(GlyphrError::InvalidGlyph(c)),
        }
    }
}

} // verus!
