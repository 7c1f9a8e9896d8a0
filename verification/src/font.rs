//! Compiled fonts: a table of glyphs in codepoint order, with the metrics that
//! place them.

use crate::api::GlyphrError;
use vstd::prelude::*;

verus! {

/// How the raster of a glyph is stored.
#[derive(Clone, Copy, Debug, PartialEq, Eq)]
pub enum BitmapFormat {
    /// A run-length stream of distance samples, one byte each.
    SDF,
    /// One bit per pixel, rows packed without gaps, the first pixel in the
    /// highest bit.
    Bitmap,
}

/// One compiled glyph.
pub struct Glyph<'a> {
    pub character: char,
    pub bitmap: &'a [u8],
    pub width: i32,
    pub height: i32,
    pub xmin: i32,
    pub ymin: i32,
    pub advance_width: i32,
}

/// A compiled font. Lookup is a binary search, so `glyphs` has to be in
/// strictly increasing codepoint order: see [`Font::is_sorted`].
#[derive(Clone, Copy)]
pub struct Font<'a> {
    pub glyphs: &'a [Glyph<'a>],
    pub size: i32,
    pub ascent: i32,
    pub descent: i32,
    pub format: BitmapFormat,
}

/// Horizontal alignment of a phrase at its anchor.
#[derive(Clone, Copy, Debug, PartialEq, Eq)]
pub enum AlignH {
    Left,
    Center,
    Right,
}

/// Vertical alignment of a phrase at its anchor.
#[derive(Clone, Copy, Debug, PartialEq, Eq)]
pub enum AlignV {
    Top,
    Center,
    Baseline,
}

/// Codepoints strictly increasing.
pub open spec fn strictly_increasing(codepoints: Seq<char>) -> bool {
    forall|i: int, j: int|
        0 <= i < j < codepoints.len() ==> (codepoints[i] as u32) < (codepoints[j] as u32)
}

impl<'a> Font<'a> {
    /// The codepoints of the glyphs, in table order.
    pub open spec fn codepoints(&self) -> Seq<char> {
        Seq::new(self.glyphs@.len(), |i: int| self.glyphs@[i].character)
    }

    /// The table is in strictly increasing codepoint order.
    pub open spec fn is_sorted(&self) -> bool {
        strictly_increasing(self.codepoints())
    }

    /// Glyph `i` of the table is the glyph of `ch`.
    pub open spec fn glyph_at(&self, i: int, ch: char) -> bool {
        0 <= i < self.glyphs@.len() && self.glyphs@[i].character == ch
    }

    /// The table has a glyph for `ch`.
    pub open spec fn has_glyph(&self, ch: char) -> bool {
        exists|i: int| self.glyph_at(i, ch)
    }

    /// Where the glyph of `ch` stands in a table that has one.
    pub open spec fn index_of(&self, ch: char) -> int {
        choose|i: int| self.glyph_at(i, ch)
    }

    /// The position of the glyph of `ch`, by binary search. On a sorted table
    /// the search fails only where the table has no such glyph.
    pub fn find_index(&self, ch: char) -> (found: Option<usize>)
        ensures
            found matches Some(i) ==> self.glyph_at(i as int, ch),
            found is None && self.is_sorted() ==> !self.has_glyph(ch),
            self.is_sorted() && self.has_glyph(ch) ==> found == Some(self.index_of(ch) as usize),
    {
        let mut lo: usize = 0;
        let mut hi: usize = self.glyphs.len();
        while lo < hi
            invariant
                lo <= hi <= self.glyphs@.len(),
                self.is_sorted() ==> forall|i: int|
                    0 <= i < lo ==> (#[trigger] self.glyphs@[i].character as u32) < ch as u32,
                self.is_sorted() ==> forall|i: int|
                    hi <= i < self.glyphs@.len() ==> (#[trigger] self.glyphs@[i].character as u32)
                        > ch as u32,
            decreases hi - lo,
        {
            let mid = lo + (hi - lo) / 2;
            let c = self.glyphs[mid].character;
            proof {
                if self.is_sorted() {
                    assert forall|i: int| 0 <= i < self.glyphs@.len() implies self.codepoints()[i]
                        == #[trigger] self.glyphs@[i].character by {}
                    assert forall|i: int| 0 <= i <= mid implies (
                    #[trigger] self.glyphs@[i].character as u32) <= c as u32 by {
                        if i < mid {
                            assert((self.codepoints()[i] as u32) < (self.codepoints()[mid as int]
                                as u32));
                        }
                    }
                    assert forall|i: int| mid <= i < self.glyphs@.len() implies (
                    #[trigger] self.glyphs@[i].character as u32) >= c as u32 by {
                        if mid < i {
                            assert((self.codepoints()[mid as int] as u32) < (self.codepoints()[i]
                                as u32));
                        }
                    }
                }
            }
            if c == ch {
                proof {
                    self.lemma_unique(mid as int, ch);
                }
                return Some(mid);
            } else if c < ch {
                lo = mid + 1;
            } else {
                hi = mid;
            }
        }
        None
    }

    /// Whether the table is in strictly increasing codepoint order.
    pub fn check_sorted(&self) -> (sorted: bool)
        ensures
            sorted == self.is_sorted(),
    {
        let n = self.glyphs.len();
        if n < 2 {
            return true;
        }
        let mut i: usize = 1;
        while i < n
            invariant
                1 <= i <= n,
                n == self.glyphs@.len(),
                forall|a: int, b: int|
                    0 <= a < b < i ==> (self.glyphs@[a].character as u32) < (
                    self.glyphs@[b].character as u32),
            decreases n - i,
        {
            if !(self.glyphs[i - 1].character < self.glyphs[i].character) {
                proof {
                    assert(self.codepoints()[i - 1] == self.glyphs@[i - 1].character);
                    assert(self.codepoints()[i as int] == self.glyphs@[i as int].character);
                }
                return false;
            }
            proof {
                assert forall|a: int, b: int| 0 <= a < b < i + 1 implies (
                self.glyphs@[a].character as u32) < (self.glyphs@[b].character as u32) by {
                    if b == i && a < i - 1 {
                        assert((self.glyphs@[a].character as u32) < (self.glyphs@[i
                            - 1].character as u32));
                    }
                }
            }
            i = i + 1;
        }
        proof {
            assert forall|a: int, b: int| 0 <= a < b < self.codepoints().len() implies (
            self.codepoints()[a] as u32) < (self.codepoints()[b] as u32) by {
                assert((self.glyphs@[a].character as u32) < (self.glyphs@[b].character as u32));
            }
        }
        true
    }

    /// A sorted table has at most one glyph for a codepoint.
    pub proof fn lemma_unique(&self, i: int, ch: char)
        requires
            self.glyph_at(i, ch),
        ensures
            self.has_glyph(ch),
            self.is_sorted() ==> self.index_of(ch) == i,
    {
        let j = self.index_of(ch);
        if self.is_sorted() && j != i {
            assert(self.codepoints()[i] == ch);
            assert(self.codepoints()[j] == ch);
            if i < j {
                assert((self.codepoints()[i] as u32) < (self.codepoints()[j] as u32));
            } else {
                assert((self.codepoints()[j] as u32) < (self.codepoints()[i] as u32));
            }
        }
    }

    /// The glyph of `ch`. A sorted table gives `InvalidGlyph(ch)` exactly where
    /// it has no glyph for `ch`.
    pub fn find_glyph(&self, ch: char) -> (found: Result<&Glyph<'a>, GlyphrError>)
        ensures
            found matches Ok(glyph) ==> exists|i: int|
                self.glyph_at(i, ch) && *glyph == self.glyphs@[i],
            found matches Err(error) ==> error == GlyphrError::InvalidGlyph(ch),
            found is Err && self.is_sorted() ==> !self.has_glyph(ch),
            self.is_sorted() && self.has_glyph(ch) ==> (found matches Ok(glyph) && *glyph
                == self.glyphs@[self.index_of(ch)]),
    {
        match self.find_index(ch) {
            Some(i) => Ok(&self.glyphs[i]),
            None => Err(GlyphrError::InvalidGlyph(ch)),
        }
    }
}

/// The advance width of the glyph of `c`: how far the pen moves after it, at
/// the size the font was compiled for.
pub fn advance(c: char, font: Font) -> (width: Result<i32, GlyphrError>)
    ensures
        width matches Ok(w) ==> exists|i: int|
            font.glyph_at(i, c) && w == font.glyphs@[i].advance_width,
        width matches Err(error) ==> error == GlyphrError::InvalidGlyph(c),
        width is Err && font.is_sorted() ==> !font.has_glyph(c),
        font.is_sorted() && font.has_glyph(c) ==> width == Ok::<i32, GlyphrError>(
            font.glyphs@[font.index_of(c)].advance_width,
        ),
{
    match font.find_glyph(c) {
        Ok(glyph) => Ok(glyph.advance_width),
        Err(error) => Err(error),
    }
}

} // verus!
