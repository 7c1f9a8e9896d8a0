//! Text for small displays, from compact glyph rasters.
//!
//! A font is compiled ahead of time: the outline of each character becomes a
//! quantized distance field, stored as a run-length stream, or a bitmap at
//! one bit a pixel. At run time the glyphs of a text are laid out along a pen
//! and drawn onto a target that takes pixels, from the stored rasters alone.
//!
//! Compiling: [`config`] names the characters, [`field`] and [`scanline`]
//! generate a raster, [`generator`] stores it ([`rle`] for distance fields).
//! Rendering: [`font`] finds the glyph, [`layout`] places it, [`sdf`] or
//! [`renderer`] draws it, [`text`] does so for a line. [`api`] holds the
//! target and the error type, and [`determinism`] shows that rendering again
//! gives the same.
//!
//! Everything here works on integers. What needs fractions (how an outline
//! is measured, how a pixel between four samples is shaded) is handed in by
//! the caller as functions, and every contract states what holds whatever
//! those functions return.

pub mod api;
pub mod chars;
pub mod config;
pub mod determinism;
pub mod escape;
pub mod field;
pub mod font;
pub mod generator;
pub mod layout;
pub mod renderer;
pub mod rle;
pub mod sampler;
pub mod scanline;
pub mod sdf;
pub mod sorted;
pub mod text;

pub use api::{blend_pixel, Buffer, BufferTarget, GlyphrError, RenderTarget, TextAlign};
pub use font::{advance, AlignH, AlignV, BitmapFormat, Font, Glyph};
pub use rle::{rle_decode, rle_decode_at, rle_encode, RleCursor};
pub use renderer::{bitmap_value_at, clip_rect, render_glyph_bitmap, ClipRect};
pub use sampler::{plot_coverage, sample_neighbors, Neighbors, SdfSampler};
pub use config::parse_char_set;
pub use layout::{
    check_phrase, glyph_rise, horizontal_offset, line_height, phrase_length, vertical_offset, Pen, Placement,
    ScaledGlyph, VerticalOffsets,
};
pub use generator::{
    compile_glyph, generate_font, glyph_name, new_line_size, pack_bitmap, CompileError,
    FontSettings, GlyphEntry, GlyphSource, Metrics,
};
pub use scanline::{scanline, scanline_scan};
pub use escape::{rust_char_escape, EscapeError};
pub use sdf::render_glyph_sdf;
pub use text::{check_line, check_raster, check_rasters, draw_glyph, render, render_glyph};
pub use field::{sdf_generate, SdfRaster};
