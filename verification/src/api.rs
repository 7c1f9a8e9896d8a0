//! What callers hold: the error type, the render target and text alignment.

use crate::font::{AlignH, AlignV};
use vstd::prelude::*;
use vstd::string::StringExecFns;

verus! {

/// Why a sample could not be read or a phrase not be rendered.
#[derive(Debug, Clone, Copy, PartialEq, Eq)]
pub enum GlyphrError {
    /// A sample or a pixel lies outside the raster.
    OutOfBounds,
    /// The font has no glyph for this character.
    InvalidGlyph(char),
    /// The target refused a pixel.
    InvalidTarget,
}

impl GlyphrError {
    /// The text of [`GlyphrError::message`].
    pub open spec fn message_text(&self) -> Seq<char> {
        match self {
            GlyphrError::OutOfBounds => "Rendering position is out of bounds"@,
            GlyphrError::InvalidGlyph(c) => "Glyph not found: '"@.push(*c) + "'"@,
            GlyphrError::InvalidTarget => "Invalid render target"@,
        }
    }

    /// The error in words.
    pub fn message(&self) -> (text: String)
        ensures
            text@ == self.message_text(),
    {
        match self {
            GlyphrError::OutOfBounds => String::from_str("Rendering position is out of bounds"),
            GlyphrError::InvalidGlyph(c) => {
                let mut text = String::from_str("Glyph not found: '");
                text.push(*c);
                text.append("'");
                text
            },
            GlyphrError::InvalidTarget => String::from_str("Invalid render target"),
        }
    }
}

/// Where a phrase stands relative to its anchor.
#[derive(Clone, Copy, Debug, PartialEq, Eq)]
pub struct TextAlign {
    pub horizontal: AlignH,
    pub vertical: AlignV,
}

impl Default for TextAlign {
    /// Left and top.
    fn default() -> (align: Self)
        ensures
            align.horizontal == AlignH::Left,
            align.vertical == AlignV::Top,
    {
        TextAlign { horizontal: AlignH::Left, vertical: AlignV::Top }
    }
}

/// One pixel handed to a target.
pub struct Plot {
    pub x: u32,
    pub y: u32,
    pub color: u32,
}

/// A surface that takes pixels. `color` is ARGB with eight bits a channel;
/// what the alpha channel means is up to the target.
///
/// The two spec functions give contracts a name for what the methods do: an
/// implementation states there what it promises, and may promise nothing.
pub trait RenderTarget {
    /// `dimensions` may report `size`.
    open spec fn reports(&self, size: (u32, u32)) -> bool {
        true
    }

    /// A call `write_pixel(x, y, color)` on `self` may leave the target as
    /// `after` and return `accepted`.
    open spec fn write_gives(
        &self,
        x: u32,
        y: u32,
        color: u32,
        after: &Self,
        accepted: bool,
    ) -> bool {
        true
    }

    /// Takes one pixel. Returns whether the target took it.
    fn write_pixel(&mut self, x: u32, y: u32, color: u32) -> (accepted: bool)
        ensures
            old(self).write_gives(x, y, color, final(self), accepted),
    ;

    /// Width and height of the target.
    fn dimensions(&self) -> (size: (u32, u32))
        ensures
            self.reports(size),
    ;
}

/// `states` are the states that a target goes through while the pixels of
/// `plots` are written to it in order, each of them taken.
pub open spec fn plot_trace<T: RenderTarget>(states: Seq<T>, plots: Seq<Plot>) -> bool {
    &&& states.len() == plots.len() + 1
    &&& forall|k: int|
        0 <= k < plots.len() ==> (#[trigger] states[k]).write_gives(
            plots[k].x,
            plots[k].y,
            plots[k].color,
            &states[k + 1],
            true,
        )
}

/// `after` is `before` once every pixel of `plots` has been written to it in
/// order and taken.
pub open spec fn plotted<T: RenderTarget>(before: &T, plots: Seq<Plot>, after: &T) -> bool {
    exists|states: Seq<T>|
        {
            &&& #[trigger] plot_trace(states, plots)
            &&& states.first() == *before
            &&& states.last() == *after
        }
}

/// `after` is `before` once the pixels of `plots` have been written to it in
/// order and all but the last were taken: the last one the target refused.
pub open spec fn refused<T: RenderTarget>(before: &T, plots: Seq<Plot>, after: &T) -> bool {
    plots.len() > 0 && exists|mid: T|
        {
            &&& #[trigger] plotted(before, plots.drop_last(), &mid)
            &&& mid.write_gives(plots.last().x, plots.last().y, plots.last().color, after, false)
        }
}

/// Nothing plotted leaves a target as it was.
pub proof fn lemma_plotted_nothing<T: RenderTarget>(before: &T, after: &T)
    ensures
        plotted(before, Seq::<Plot>::empty(), after) <==> *after == *before,
{
    if *after == *before {
        let states = seq![*before];
        assert(plot_trace(states, Seq::<Plot>::empty()));
        assert(states.first() == *before && states.last() == *after);
    }
}

/// One more pixel taken extends what has been plotted.
pub proof fn lemma_plotted_push<T: RenderTarget>(
    before: &T,
    plots: Seq<Plot>,
    mid: &T,
    plot: Plot,
    after: &T,
)
    requires
        plotted(before, plots, mid),
        mid.write_gives(plot.x, plot.y, plot.color, after, true),
    ensures
        plotted(before, plots.push(plot), after),
{
    let states = choose|states: Seq<T>|
        {
            &&& #[trigger] plot_trace(states, plots)
            &&& states.first() == *before
            &&& states.last() == *mid
        };
    let longer = states.push(*after);
    let all = plots.push(plot);
    assert forall|k: int| 0 <= k < all.len() implies (#[trigger] longer[k]).write_gives(
        all[k].x,
        all[k].y,
        all[k].color,
        &longer[k + 1],
        true,
    ) by {
        if k < plots.len() {
            assert(longer[k] == states[k]);
            assert(longer[k + 1] == states[k + 1]);
            assert(all[k] == plots[k]);
        }
    }
    assert(plot_trace(longer, all));
    assert(longer.first() == *before && longer.last() == *after);
}

/// One more pixel refused ends what has been plotted.
pub proof fn lemma_refused_push<T: RenderTarget>(
    before: &T,
    plots: Seq<Plot>,
    mid: &T,
    plot: Plot,
    after: &T,
)
    requires
        plotted(before, plots, mid),
        mid.write_gives(plot.x, plot.y, plot.color, after, false),
    ensures
        refused(before, plots.push(plot), after),
{
    let all = plots.push(plot);
    assert(all.drop_last() =~= plots);
    assert(all.last() == plot);
    assert(plotted(before, all.drop_last(), mid));
}

/// One eight-bit channel of a colour.
pub open spec fn channel(color: u32, shift: u32) -> u32 {
    (color >> shift) & 0xFF
}

/// A foreground channel over a background channel at opacity `alpha / 255`,
/// rounded down.
pub open spec fn blend_channel(fg: u32, bg: u32, alpha: u8) -> u32 {
    ((fg * alpha + bg * (255 - alpha)) / 255) as u32
}

/// `fg` over `bg` at opacity `alpha / 255`, channel by channel; the result is
/// opaque.
pub open spec fn blend(fg: u32, bg: u32, alpha: u8) -> u32 {
    (255u32 << 24) | (blend_channel(channel(fg, 16), channel(bg, 16), alpha) << 16) | (
    blend_channel(channel(fg, 8), channel(bg, 8), alpha) << 8) | blend_channel(
        channel(fg, 0),
        channel(bg, 0),
        alpha,
    )
}

/// What a pixel buffer holds at a pixel that showed `bg`, once `color` has
/// been written there: `color` itself where it is opaque, else the blend.
pub open spec fn composite(bg: u32, color: u32) -> u32 {
    if channel(color, 24) == 0xff {
        color
    } else {
        blend(color, bg, channel(color, 24) as u8)
    }
}

/// A blended channel lies between 0 and 255, and at the ends of the opacity
/// scale it is the background or the foreground.
pub proof fn lemma_blend_channel(fg: u32, bg: u32, alpha: u8)
    requires
        fg <= 255,
        bg <= 255,
    ensures
        blend_channel(fg, bg, alpha) <= 255,
        alpha == 0 ==> blend_channel(fg, bg, alpha) == bg,
        alpha == 255 ==> blend_channel(fg, bg, alpha) == fg,
        fg == bg ==> blend_channel(fg, bg, alpha) == fg,
{
    let a = alpha as int;
    let total = fg * a + bg * (255 - a);
    assert(0 <= fg * a <= 255 * a) by (nonlinear_arith)
        requires
            0 <= fg <= 255,
            0 <= a,
    ;
    assert(0 <= bg * (255 - a) <= 255 * (255 - a)) by (nonlinear_arith)
        requires
            0 <= bg <= 255,
            0 <= 255 - a,
    ;
    assert(0 <= total <= 255 * 255);
    if fg == bg {
        assert(total == fg * 255) by (nonlinear_arith)
            requires
                total == fg * a + bg * (255 - a),
                fg == bg,
        ;
    }
    if a == 0 {
        assert(total == bg * 255) by (nonlinear_arith)
            requires
                total == fg * a + bg * (255 - a),
                a == 0,
        ;
    }
    if a == 255 {
        assert(total == fg * 255) by (nonlinear_arith)
            requires
                total == fg * a + bg * (255 - a),
                a == 255,
        ;
    }
}

/// The channels of a blend are the blended channels, under full opacity.
pub proof fn lemma_blend_channels(fg: u32, bg: u32, alpha: u8)
    ensures
        channel(blend(fg, bg, alpha), 24) == 255,
        channel(blend(fg, bg, alpha), 16) == blend_channel(
            channel(fg, 16),
            channel(bg, 16),
            alpha,
        ),
        channel(blend(fg, bg, alpha), 8) == blend_channel(channel(fg, 8), channel(bg, 8), alpha),
        channel(blend(fg, bg, alpha), 0) == blend_channel(channel(fg, 0), channel(bg, 0), alpha),
{
    let r = blend_channel(channel(fg, 16), channel(bg, 16), alpha);
    let g = blend_channel(channel(fg, 8), channel(bg, 8), alpha);
    let b = blend_channel(channel(fg, 0), channel(bg, 0), alpha);
    lemma_channel_bound(fg, 16);
    lemma_channel_bound(bg, 16);
    lemma_channel_bound(fg, 8);
    lemma_channel_bound(bg, 8);
    lemma_channel_bound(fg, 0);
    lemma_channel_bound(bg, 0);
    lemma_blend_channel(channel(fg, 16), channel(bg, 16), alpha);
    lemma_blend_channel(channel(fg, 8), channel(bg, 8), alpha);
    lemma_blend_channel(channel(fg, 0), channel(bg, 0), alpha);
    let packed = (255u32 << 24) | (r << 16) | (g << 8) | b;
    assert((packed >> 24) & 0xFF == 255 && (packed >> 16) & 0xFF == r && (packed >> 8) & 0xFF == g
        && (packed >> 0) & 0xFF == b) by (bit_vector)
        requires
            r <= 255,
            g <= 255,
            b <= 255,
            packed == (255u32 << 24) | (r << 16) | (g << 8) | b,
    ;
}

/// A channel is at most 255.
pub proof fn lemma_channel_bound(color: u32, shift: u32)
    ensures
        channel(color, shift) <= 255,
{
    assert((color >> shift) & 0xFF <= 255) by (bit_vector);
}

/// Blends the colour channels of `fg` over those of `bg` at opacity
/// `alpha / 255`. Each channel is rounded down; the result is opaque.
pub fn blend_pixel(fg: u32, bg: u32, alpha: u8) -> (blended: u32)
    ensures
        blended == blend(fg, bg, alpha),
{
    let a = alpha as u32;
    let fg_r = (fg >> 16) & 0xFF;
    let fg_g = (fg >> 8) & 0xFF;
    let fg_b = fg & 0xFF;
    let bg_r = (bg >> 16) & 0xFF;
    let bg_g = (bg >> 8) & 0xFF;
    let bg_b = bg & 0xFF;
    proof {
        lemma_channel_bound(fg, 16);
        lemma_channel_bound(bg, 16);
        lemma_channel_bound(fg, 8);
        lemma_channel_bound(bg, 8);
        lemma_channel_bound(fg, 0);
        lemma_channel_bound(bg, 0);
        assert(fg & 0xFF == (fg >> 0) & 0xFF) by (bit_vector);
        assert(bg & 0xFF == (bg >> 0) & 0xFF) by (bit_vector);
        lemma_blend_channel(fg_r, bg_r, alpha);
        lemma_blend_channel(fg_g, bg_g, alpha);
        lemma_blend_channel(fg_b, bg_b, alpha);
    }
    let blended_r = blend_one(fg_r, bg_r, a);
    let blended_g = blend_one(fg_g, bg_g, a);
    let blended_b = blend_one(fg_b, bg_b, a);
    (255u32 << 24) | (blended_r << 16) | (blended_g << 8) | blended_b
}

/// One channel of [`blend_pixel`].
fn blend_one(fg: u32, bg: u32, alpha: u32) -> (blended: u32)
    requires
        fg <= 255,
        bg <= 255,
        alpha <= 255,
    ensures
        blended == blend_channel(fg, bg, alpha as u8),
        blended <= 255,
{
    proof {
        lemma_blend_channel(fg, bg, alpha as u8);
        assert(fg * alpha <= 255 * 255) by (nonlinear_arith)
            requires
                fg <= 255,
                alpha <= 255,
        ;
        assert(bg * (255 - alpha) <= 255 * 255) by (nonlinear_arith)
            requires
                bg <= 255,
                alpha <= 255,
        ;
    }
    (fg * alpha + bg * (255 - alpha)) / 255
}

/// A pixel buffer of `width * height` pixels in row-major order.
pub struct BufferTarget<'a> {
    pub buffer: &'a mut [u32],
    pub width: u32,
    pub height: u32,
}

/// A pixel buffer with its size, under its older name.
pub type Buffer<'a> = BufferTarget<'a>;

impl<'a> BufferTarget<'a> {
    /// The pixel `(x, y)` lies in the buffer.
    pub open spec fn holds(&self, x: u32, y: u32) -> bool {
        x < self.width && y < self.height && y * self.width + x < self.buffer@.len()
    }

    /// A target over `buffer`, which holds `width * height` pixels.
    pub fn new(buffer: &'a mut [u32], width: u32, height: u32) -> (target: Self)
        requires
            width * height <= u32::MAX,
            old(buffer)@.len() == width * height,
        ensures
            target.buffer@ == old(buffer)@,
            target.width == width,
            target.height == height,
            final(buffer)@ == final(target.buffer)@,
    {
        BufferTarget { buffer, width, height }
    }
}

impl<'a> RenderTarget for BufferTarget<'a> {
    open spec fn reports(&self, size: (u32, u32)) -> bool {
        size == (self.width, self.height)
    }

    open spec fn write_gives(
        &self,
        x: u32,
        y: u32,
        color: u32,
        after: &Self,
        accepted: bool,
    ) -> bool {
        &&& accepted == self.holds(x, y)
        &&& after.width == self.width
        &&& after.height == self.height
        &&& after.buffer@ == if accepted {
            self.buffer@.update(
                y * self.width + x,
                composite(self.buffer@[y * self.width + x], color),
            )
        } else {
            self.buffer@
        }
    }

    /// Writes `color` at `(x, y)`: as it is where its alpha is 255, else
    /// blended over what the pixel shows. Refuses a pixel outside the buffer.
    fn write_pixel(&mut self, x: u32, y: u32, color: u32) -> (accepted: bool) {
        if x >= self.width || y >= self.height {
            return false;
        }
        proof {
            assert(y * self.width <= 0xFFFF_FFFF * 0xFFFF_FFFF) by (nonlinear_arith)
                requires
                    y <= 0xFFFF_FFFF,
                    self.width <= 0xFFFF_FFFF,
            ;
        }
        let index = (y as u64) * (self.width as u64) + (x as u64);
        if index < self.buffer.len() as u64 {
            let at = index as usize;
            let bg = self.buffer[at];
            let alpha = (color >> 24) & 0xff;
            proof {
                lemma_channel_bound(color, 24);
            }
            if alpha == 0xff {
                self.buffer[at] = color;
            } else {
                self.buffer[at] = blend_pixel(color, bg, alpha as u8);
            }
            true
        } else {
            false
        }
    }

    /// The width and the height the target was made with.
    fn dimensions(&self) -> (size: (u32, u32)) {
        (self.width, self.height)
    }
}

} // verus!
