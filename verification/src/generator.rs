//! Compiling glyphs: from the quantized raster of each character to the
//! table entries of a font.

use crate::chars::{is_scalar, white_space};
use crate::font::{strictly_increasing, BitmapFormat, Glyph};
use crate::renderer::{bit_at, bitmap_value};
use crate::rle::{decode, encode, lemma_round_trip, rle_encode};
use crate::api::GlyphrError;
use vstd::prelude::*;
use vstd::string::StringExecFns;

verus! {

/// Which face of a font collection to read.
#[derive(Copy, Clone, Debug, PartialEq, Eq)]
pub struct FontSettings {
    pub collection_index: u32,
}

impl Default for FontSettings {
    /// The first face.
    fn default() -> (settings: Self)
        ensures
            settings.collection_index == 0,
    {
        FontSettings { collection_index: 0 }
    }
}

/// The box and the advance of one glyph, in pixels at the compiled size.
#[derive(Copy, Clone, Debug, PartialEq, Eq)]
pub struct Metrics {
    pub xmin: i32,
    pub ymin: i32,
    pub width: i32,
    pub height: i32,
    pub advance_width: i32,
}

impl Metrics {
    /// Metrics of nothing: an empty box and no advance.
    pub open spec fn zero() -> Metrics {
        Metrics { xmin: 0, ymin: 0, width: 0, height: 0, advance_width: 0 }
    }
}

impl Default for Metrics {
    /// Metrics of nothing.
    fn default() -> (metrics: Self)
        ensures
            metrics == Metrics::zero(),
    {
        Metrics { xmin: 0, ymin: 0, width: 0, height: 0, advance_width: 0 }
    }
}

/// The distance from one baseline to the next, in font units: the ascent
/// above the descent, and the gap between two lines.
pub fn new_line_size(ascent: i16, descent: i16, line_gap: i16) -> (size: i32)
    ensures
        size == ascent - descent + line_gap,
{
    ascent as i32 - descent as i32 + line_gap as i32
}

/// What the outline source has for one character: the quantized raster with
/// its metrics where the font has an outline, and the metrics alone where the
/// font reports any.
pub struct GlyphSource {
    pub outline: Option<(Metrics, Vec<u8>)>,
    pub metrics: Option<Metrics>,
}

/// One entry of a compiled font, beside its stored raster.
pub struct GlyphEntry {
    pub character: char,
    pub name: String,
    pub xmin: i32,
    pub ymin: i32,
    pub width: i32,
    pub height: i32,
    pub advance_width: i32,
}

/// Why a font could not be compiled.
#[derive(Debug, Clone, Copy, PartialEq, Eq)]
pub enum CompileError {
    /// The font is not complete: it has neither an outline nor a placeholder
    /// for this character.
    IncompleteFont(char),
}

/// A sample that counts as ink in a one-bit raster.
pub open spec fn inked(sample: u8) -> bool {
    sample > 128
}

/// Pixel `k` of a raster as a bit; 0 behind the end of the raster.
pub open spec fn pixel_bit(pixels: Seq<u8>, k: int) -> u8 {
    if 0 <= k < pixels.len() && inked(pixels[k]) {
        1u8
    } else {
        0u8
    }
}

/// Byte `j` of the packed raster: pixels `8 * j` to `8 * j + 7`, the first in
/// the highest bit.
pub open spec fn packed_byte(pixels: Seq<u8>, j: int) -> u8 {
    (pixel_bit(pixels, 8 * j) << 7) | (pixel_bit(pixels, 8 * j + 1) << 6) | (pixel_bit(
        pixels,
        8 * j + 2,
    ) << 5) | (pixel_bit(pixels, 8 * j + 3) << 4) | (pixel_bit(pixels, 8 * j + 4) << 3) | (
    pixel_bit(pixels, 8 * j + 5) << 2) | (pixel_bit(pixels, 8 * j + 6) << 1) | pixel_bit(
        pixels,
        8 * j + 7,
    )
}

/// A raster at one bit a pixel: a pixel is set where its sample is above 128.
/// The rows follow each other without gaps; the last byte is filled up with
/// zeros.
pub open spec fn packed(pixels: Seq<u8>) -> Seq<u8> {
    Seq::new(((pixels.len() + 7) / 8) as nat, |j: int| packed_byte(pixels, j))
}

/// Every pixel of a raster is found again in the packed raster.
pub proof fn lemma_packed_bit(pixels: Seq<u8>, k: int)
    requires
        0 <= k < pixels.len(),
    ensures
        k / 8 < packed(pixels).len(),
        bit_at(packed(pixels), k) == inked(pixels[k]),
{
    let j = k / 8;
    let r = k % 8;
    let b0 = pixel_bit(pixels, 8 * j);
    let b1 = pixel_bit(pixels, 8 * j + 1);
    let b2 = pixel_bit(pixels, 8 * j + 2);
    let b3 = pixel_bit(pixels, 8 * j + 3);
    let b4 = pixel_bit(pixels, 8 * j + 4);
    let b5 = pixel_bit(pixels, 8 * j + 5);
    let b6 = pixel_bit(pixels, 8 * j + 6);
    let b7 = pixel_bit(pixels, 8 * j + 7);
    let byte = packed_byte(pixels, j);
    assert(packed(pixels)[j] == byte);
    assert((byte >> 7u8) & 1 == b0 && (byte >> 6u8) & 1 == b1 && (byte >> 5u8) & 1 == b2 && (byte
        >> 4u8) & 1 == b3 && (byte >> 3u8) & 1 == b4 && (byte >> 2u8) & 1 == b5 && (byte >> 1u8) & 1
        == b6 && (byte >> 0u8) & 1 == b7) by (bit_vector)
        requires
            b0 <= 1,
            b1 <= 1,
            b2 <= 1,
            b3 <= 1,
            b4 <= 1,
            b5 <= 1,
            b6 <= 1,
            b7 <= 1,
            byte == (b0 << 7) | (b1 << 6) | (b2 << 5) | (b3 << 4) | (b4 << 3) | (b5 << 2) | (b6
                << 1) | b7,
    ;
    assert(pixel_bit(pixels, k) == (if inked(pixels[k]) {
        1u8
    } else {
        0u8
    }));
    assert(k == 8 * j + r);
}

/// A bitmap glyph whose bitmap is the packed raster of its box shows ink where
/// the sample of the raster is above 128.
pub proof fn lemma_packed_glyph(glyph: &Glyph, raster: Seq<u8>, x: int, y: int)
    requires
        glyph.bitmap@ == packed(raster),
        raster.len() == glyph.width * glyph.height,
        0 <= x < glyph.width,
        0 <= y < glyph.height,
    ensures
        0 <= y * glyph.width + x < raster.len(),
        bitmap_value(glyph, x, y) == Ok::<bool, GlyphrError>(inked(raster[y * glyph.width + x])),
{
    let w = glyph.width as int;
    let h = glyph.height as int;
    assert(0 <= y * w && y * w + w <= w * h) by (nonlinear_arith)
        requires
            0 <= y < h,
            0 < w,
    ;
    lemma_packed_bit(raster, y * w + x);
}

/// One pixel of a raster as a bit: pixel `base + k`.
fn bit_of(pixels: &[u8], base: usize, k: usize) -> (bit: u8)
    requires
        base < pixels@.len(),
        k < 8,
    ensures
        bit == pixel_bit(pixels@, base + k),
{
    if k < pixels.len() - base && pixels[base + k] > 128 {
        1
    } else {
        0
    }
}

/// Packs a raster of one byte a pixel into one bit a pixel: see [`packed`].
pub fn pack_bitmap(pixels: &[u8]) -> (bitmap: Vec<u8>)
    ensures
        bitmap@ == packed(pixels@),
{
    let n = pixels.len();
    let mut bitmap: Vec<u8> = Vec::new();
    let mut base: usize = 0;
    while base < n
        invariant_except_break
            base % 8 == 0,
            base <= n,
            bitmap@.len() == base / 8,
        invariant
            n == pixels@.len(),
            forall|j: int| 0 <= j < bitmap@.len() ==> bitmap@[j] == packed_byte(pixels@, j),
        ensures
            bitmap@.len() == (n + 7) / 8,
        decreases n - base,
    {
        let b0 = bit_of(pixels, base, 0);
        let b1 = bit_of(pixels, base, 1);
        let b2 = bit_of(pixels, base, 2);
        let b3 = bit_of(pixels, base, 3);
        let b4 = bit_of(pixels, base, 4);
        let b5 = bit_of(pixels, base, 5);
        let b6 = bit_of(pixels, base, 6);
        let b7 = bit_of(pixels, base, 7);
        let byte = (b0 << 7) | (b1 << 6) | (b2 << 5) | (b3 << 4) | (b4 << 3) | (b5 << 2) | (b6 << 1)
            | b7;
        proof {
            let j = base as int / 8;
            assert(base == 8 * j);
            assert(byte == packed_byte(pixels@, j));
        }
        bitmap.push(byte);
        if n - base <= 8 {
            break ;
        }
        base = base + 8;
    }
    proof {
        assert(bitmap@ =~= packed(pixels@));
    }
    bitmap
}

/// The character of a decimal digit.
pub open spec fn digit(d: int) -> char {
    (48 + d) as char
}

/// A number in decimal, without leading zeros.
pub open spec fn decimal(n: nat) -> Seq<char>
    decreases n,
{
    if n < 10 {
        seq![digit(n as int)]
    } else {
        decimal(n / 10).push(digit((n % 10) as int))
    }
}

/// The name under which the glyph of `c` is stored: `GLYPH_` and the number
/// of the character in decimal.
pub open spec fn glyph_name_text(c: char) -> Seq<char> {
    "GLYPH_"@ + decimal(c as u32 as nat)
}

/// See [`glyph_name_text`].
pub fn glyph_name(c: char) -> (name: String)
    ensures
        name@ == glyph_name_text(c),
{
    let code = c as u32;
    let mut reversed: Vec<char> = Vec::new();
    let mut n: u32 = code;
    loop
        invariant_except_break
            decimal(code as nat) == decimal(n as nat) + reversed@.reverse(),
        ensures
            decimal(code as nat) == reversed@.reverse(),
        decreases n,
    {
        let d = n % 10;
        let figure = match char::from_u32(48 + d) {
            Some(figure) => figure,
            None => '0',
        };
        proof {
            assert(is_scalar((48 + d) as u32));
            assert(figure == digit(d as int));
            let longer = reversed@.push(figure);
            assert(longer.reverse() =~= seq![figure] + reversed@.reverse());
            if n >= 10 {
                assert(decimal(n as nat) == decimal((n / 10) as nat).push(figure));
                assert(decimal((n / 10) as nat).push(figure) + reversed@.reverse() =~= decimal(
                    (n / 10) as nat,
                ) + longer.reverse());
            } else {
                assert(decimal(n as nat) + reversed@.reverse() =~= longer.reverse());
            }
        }
        reversed.push(figure);
        if n < 10 {
            break ;
        }
        n = n / 10;
    }
    let mut name = String::from_str("GLYPH_");
    let mut left: usize = reversed.len();
    while left > 0
        invariant
            left <= reversed@.len(),
            name@ == "GLYPH_"@ + reversed@.reverse().take(reversed@.len() - left),
        decreases left,
    {
        left = left - 1;
        name.push(reversed[left]);
        proof {
            let digits = reversed@.reverse();
            let done = reversed@.len() - left;
            assert(digits[done - 1] == reversed@[left as int]);
            assert(digits.take(done) =~= digits.take(done - 1).push(digits[done - 1]));
            assert(name@ =~= "GLYPH_"@ + digits.take(done));
        }
    }
    proof {
        let digits = reversed@.reverse();
        assert(digits.take(digits.len() as int) =~= digits);
    }
    name
}

/// A character can be compiled: it has an outline, or it may stand in the
/// font as a placeholder without ink, because it is white space or the font
/// reports an advance for it.
pub open spec fn can_compile(c: char, source: &GlyphSource) -> bool {
    ||| source.outline is Some
    ||| white_space(c)
    ||| (source.metrics matches Some(m) && m.advance_width > 0)
}

/// The stored raster of a glyph: the run-length encoding of its samples in a
/// distance-field font, the packed bits in a bitmap font, nothing for a
/// placeholder.
pub open spec fn stored_raster(format: BitmapFormat, source: &GlyphSource) -> Seq<u8> {
    match source.outline {
        Some(outline) => match format {
            BitmapFormat::SDF => encode(outline.1@),
            BitmapFormat::Bitmap => packed(outline.1@),
        },
        None => Seq::empty(),
    }
}

/// The metrics of a glyph: those of its outline, or for a placeholder those
/// the font reports, or none at all.
pub open spec fn stored_metrics(source: &GlyphSource) -> Metrics {
    match source.outline {
        Some(outline) => outline.0,
        None => match source.metrics {
            Some(m) => m,
            None => Metrics::zero(),
        },
    }
}

/// `entry` is what the character `c` compiles to.
pub open spec fn is_compiled(
    entry: &(Vec<u8>, GlyphEntry),
    c: char,
    source: &GlyphSource,
    format: BitmapFormat,
) -> bool {
    &&& entry.0@ == stored_raster(format, source)
    &&& entry.1.character == c
    &&& entry.1.name@ == glyph_name_text(c)
    &&& entry.1.xmin == stored_metrics(source).xmin
    &&& entry.1.ymin == stored_metrics(source).ymin
    &&& entry.1.width == stored_metrics(source).width
    &&& entry.1.height == stored_metrics(source).height
    &&& entry.1.advance_width == stored_metrics(source).advance_width
}

/// The stored raster of a distance-field glyph decodes to the samples of its
/// outline: as many as the raster has, each as it was.
pub proof fn lemma_stored_raster_decodes(source: &GlyphSource)
    ensures
        source.outline matches Some(outline) ==> decode(stored_raster(BitmapFormat::SDF, source))
            == outline.1@,
{
    if let Some(outline) = source.outline {
        lemma_round_trip(outline.1@);
    }
}

/// The characters of compiled entries, in their order.
pub open spec fn characters(entries: Seq<(Vec<u8>, GlyphEntry)>) -> Seq<char> {
    Seq::new(entries.len(), |i: int| entries[i].1.character)
}

/// Compiles one glyph, or tells that it cannot be compiled.
pub fn compile_glyph(c: char, source: &GlyphSource, format: BitmapFormat) -> (compiled: Option<
    (Vec<u8>, GlyphEntry),
>)
    ensures
        compiled is Some <==> can_compile(c, source),
        compiled matches Some(entry) ==> is_compiled(&entry, c, source, format),
{
    match &source.outline {
        Some(outline) => {
            let bitmap = match format {
                BitmapFormat::Bitmap => pack_bitmap(outline.1.as_slice()),
                BitmapFormat::SDF => rle_encode(outline.1.clone()),
            };
            let metrics = outline.0;
            Some(
                (
                    bitmap,
                    GlyphEntry {
                        character: c,
                        name: glyph_name(c),
                        xmin: metrics.xmin,
                        ymin: metrics.ymin,
                        width: metrics.width,
                        height: metrics.height,
                        advance_width: metrics.advance_width,
                    },
                ),
            )
        },
        None => {
            let reported = match source.metrics {
                Some(m) => m.advance_width > 0,
                None => false,
            };
            if c.is_whitespace() || reported {
                let metrics = match source.metrics {
                    Some(m) => m,
                    None => Metrics::default(),
                };
                Some(
                    (
                        Vec::new(),
                        GlyphEntry {
                            character: c,
                            name: glyph_name(c),
                            xmin: metrics.xmin,
                            ymin: metrics.ymin,
                            width: metrics.width,
                            height: metrics.height,
                            advance_width: metrics.advance_width,
                        },
                    ),
                )
            } else {
                None
            }
        },
    }
}

/// Compiles a font: one entry for each character of `char_range`, in that
/// order, from what the outline source has for it in `sources`. The first
/// character that cannot be compiled ends the compilation.
pub fn generate_font(char_range: &[char], sources: &[GlyphSource], format: BitmapFormat) -> (font:
    Result<Vec<(Vec<u8>, GlyphEntry)>, CompileError>)
    requires
        sources@.len() == char_range@.len(),
    ensures
        font matches Ok(entries) ==> {
            &&& entries@.len() == char_range@.len()
            &&& characters(entries@) == char_range@
            &&& strictly_increasing(char_range@) ==> strictly_increasing(characters(entries@))
            &&& forall|i: int|
                0 <= i < entries@.len() ==> can_compile(char_range@[i], &sources@[i])
                    && is_compiled(&#[trigger] entries@[i], char_range@[i], &sources@[i], format)
        },
        font matches Err(error) ==> exists|i: int|
            {
                &&& 0 <= i < char_range@.len()
                &&& error == CompileError::IncompleteFont(char_range@[i])
                &&& !can_compile(char_range@[i], #[trigger] &sources@[i])
                &&& forall|j: int| 0 <= j < i ==> can_compile(char_range@[j], #[trigger] &sources@[j])
            },
{
    let mut entries: Vec<(Vec<u8>, GlyphEntry)> = Vec::new();
    let n = char_range.len();
    let mut i: usize = 0;
    while i < n
        invariant
            i <= n,
            n == char_range@.len(),
            sources@.len() == n,
            entries@.len() == i,
            forall|j: int|
                0 <= j < i ==> can_compile(char_range@[j], &sources@[j]) && is_compiled(
                    &#[trigger] entries@[j],
                    char_range@[j],
                    &sources@[j],
                    format,
                ),
        decreases n - i,
    {
        let c = char_range[i];
        match compile_glyph(c, &sources[i], format) {
            Some(entry) => {
                entries.push(entry);
            },
            None => {
                return Err(CompileError::IncompleteFont(c));
            },
        }
        i = i + 1;
    }
    proof {
        assert(characters(entries@) =~= char_range@);
    }
    Ok(entries)
}

/// A font compiled from a strictly increasing character range has its
/// entries in strictly increasing codepoint order, as the binary search of
/// glyph lookup needs it.
pub proof fn lemma_compiled_order(char_range: Seq<char>, entries: Seq<(Vec<u8>, GlyphEntry)>)
    requires
        strictly_increasing(char_range),
        characters(entries) == char_range,
    ensures
        strictly_increasing(characters(entries)),
{
}

} // verus!
