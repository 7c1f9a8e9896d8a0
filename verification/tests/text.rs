use glyphr::{
    generate_font, parse_char_set, render, render_glyph, sdf_generate, AlignH, AlignV, BitmapFormat, BufferTarget,
    Font, Glyph, GlyphSource, GlyphrError, Metrics, Neighbors, RenderTarget, ScaledGlyph, TextAlign, VerticalOffsets,
};

struct Recorder {
    writes: Vec<(u32, u32, u32)>,
    accept: usize,
}

impl RenderTarget for Recorder {
    fn write_pixel(&mut self, x: u32, y: u32, color: u32) -> bool {
        self.writes.push((x, y, color));
        self.writes.len() <= self.accept
    }

    fn dimensions(&self) -> (u32, u32) {
        (20, 20)
    }
}

// 3 x 2 pixels:  # . #        2 x 2 pixels:  # #
//                . # .                       . #
const ZIGZAG: [u8; 1] = [0b1010_1000];
const CORNER: [u8; 1] = [0b1101_0000];

fn glyphs() -> [Glyph<'static>; 3] {
    [
        Glyph { character: ' ', bitmap: &[], width: 0, height: 0, xmin: 0, ymin: 0, advance_width: 2 },
        Glyph { character: 'A', bitmap: &ZIGZAG, width: 3, height: 2, xmin: 0, ymin: 0, advance_width: 4 },
        Glyph { character: 'B', bitmap: &CORNER, width: 2, height: 2, xmin: 0, ymin: 1, advance_width: 3 },
    ]
}

// ascent 6, descent -2; the rise of a glyph is ascent - ymin - height
const SCALED: [ScaledGlyph; 3] = [
    ScaledGlyph { advance: 2, rise: 6, width: 0, height: 0 },
    ScaledGlyph { advance: 4, rise: 4, width: 3, height: 2 },
    ScaledGlyph { advance: 3, rise: 3, width: 2, height: 2 },
];

const OFFSETS: VerticalOffsets = VerticalOffsets { top: -2, center: -4, baseline: -6 };

fn no_place(_offset: i32, _out: i32, _src: i32) -> (usize, ()) {
    (0, ())
}

fn no_shade(_p: Neighbors, _wx: (), _wy: ()) -> u8 {
    0
}

fn draw(text: &str, x: i32, y: i32, align: TextAlign, accept: usize) -> (Result<(), GlyphrError>, Vec<(u32, u32, u32)>) {
    let glyphs = glyphs();
    let font = Font { glyphs: &glyphs, size: 8, ascent: 6, descent: -2, format: BitmapFormat::Bitmap };
    let mut target = Recorder { writes: Vec::new(), accept };
    let result = render(&mut target, text, font, &SCALED, OFFSETS, x, y, align, 0x00112233, &no_place, &no_shade);
    (result, target.writes)
}

const INK: u32 = 0xff112233;

#[test]
fn text_is_drawn_along_the_pen() {
    let (result, writes) = draw("A BA", 1, 3, TextAlign::default(), 100);
    assert_eq!(result, Ok(()));
    // the line starts at y = 3 - 2; A stands 4 below it, B 3 below it
    let expected = vec![
        (1, 5, INK), (3, 5, INK), (2, 6, INK),
        (7, 4, INK), (8, 4, INK), (8, 5, INK),
        (10, 5, INK), (12, 5, INK), (11, 6, INK),
    ];
    assert_eq!(writes, expected);
}

#[test]
fn alignment_moves_the_line() {
    let centered = TextAlign { horizontal: AlignH::Center, vertical: AlignV::Baseline };
    // the text is 8 long: it starts 4 to the left of x = 10, and its
    // baseline lies at y = 10
    let (result, writes) = draw("AA", 10, 10, centered, 100);
    assert_eq!(result, Ok(()));
    let expected = vec![(6, 8, INK), (8, 8, INK), (7, 9, INK), (10, 8, INK), (12, 8, INK), (11, 9, INK)];
    assert_eq!(writes, expected);

    let right = TextAlign { horizontal: AlignH::Right, vertical: AlignV::Center };
    let (result, writes) = draw("B", 10, 10, right, 100);
    assert_eq!(result, Ok(()));
    assert_eq!(writes, vec![(7, 9, INK), (8, 9, INK), (8, 10, INK)]);
}

#[test]
fn text_off_the_target_is_clipped() {
    let right = TextAlign { horizontal: AlignH::Right, vertical: AlignV::Top };
    let (result, writes) = draw("AA", 5, 0, right, 100);
    assert_eq!(result, Ok(()));
    // the first glyph starts at x = -3 and is lost, the second at x = 1
    assert_eq!(writes, vec![(1, 2, INK), (3, 2, INK), (2, 3, INK)]);
}

#[test]
fn character_without_a_glyph_ends_the_text() {
    let (result, writes) = draw("A\nA", 0, 0, TextAlign::default(), 100);
    assert_eq!(result, Err(GlyphrError::InvalidGlyph('\n')));
    assert_eq!(writes, vec![(0, 2, INK), (2, 2, INK), (1, 3, INK)]);
    let (result, writes) = draw("xA", 0, 0, TextAlign::default(), 100);
    assert_eq!(result, Err(GlyphrError::InvalidGlyph('x')));
    assert!(writes.is_empty());
}

#[test]
fn refused_pixel_ends_the_text() {
    let (result, writes) = draw("AB", 0, 0, TextAlign::default(), 4);
    assert_eq!(result, Err(GlyphrError::InvalidTarget));
    assert_eq!(writes.len(), 5);
    assert_eq!(writes[4], (5, 1, INK));
}

#[test]
fn empty_text_draws_nothing() {
    for horizontal in [AlignH::Left, AlignH::Center, AlignH::Right] {
        let (result, writes) = draw("", 3, 3, TextAlign { horizontal, vertical: AlignV::Center }, 0);
        assert_eq!(result, Ok(()));
        assert!(writes.is_empty());
    }
}

#[test]
fn glyph_is_drawn_by_its_character() {
    let glyphs = glyphs();
    let font = Font { glyphs: &glyphs, size: 8, ascent: 6, descent: -2, format: BitmapFormat::Bitmap };
    let mut target = Recorder { writes: Vec::new(), accept: 100 };
    assert_eq!(render_glyph(4, 5, 'B', font, &SCALED, 0, &no_place, &no_shade, &mut target), Ok(()));
    assert_eq!(target.writes, vec![(4, 5, 0xff000000), (5, 5, 0xff000000), (5, 6, 0xff000000)]);
    assert_eq!(
        render_glyph(4, 5, 'C', font, &SCALED, 0, &no_place, &no_shade, &mut target),
        Err(GlyphrError::InvalidGlyph('C'))
    );
    assert_eq!(target.writes.len(), 3);
}

fn locate(offset: i32, out_size: i32, src_size: i32) -> (usize, f32) {
    let s = ((offset as f32 + 0.5) * (1.0 / out_size as f32) * (src_size as f32) - 0.5).max(0.0);
    let at = (s.floor() as isize).clamp(0, src_size as isize - 1) as usize;
    (at, s - at as f32)
}

fn shade(p: Neighbors, wx: f32, wy: f32) -> u8 {
    let top = p.p00 as f32 / 255.0 + wx * (p.p10 as f32 / 255.0 - p.p00 as f32 / 255.0);
    let bottom = p.p01 as f32 / 255.0 + wx * (p.p11 as f32 / 255.0 - p.p01 as f32 / 255.0);
    let dist = top + wy * (bottom - top);
    if dist > 0.5 {
        let t = ((dist - 0.4) / 0.2).clamp(0.0, 1.0);
        (t * t * (3.0 - 2.0 * t) * 255.0) as u8
    } else {
        0
    }
}

/// Compiles the characters of `pattern` from synthetic outlines: a filled
/// box with a margin of two samples, 16 by 24 samples, that reaches 8
/// samples below the baseline.
fn compile(pattern: &str) -> Vec<(Vec<u8>, glyphr::GlyphEntry)> {
    let chars = parse_char_set(pattern);
    let sources: Vec<GlyphSource> = chars
        .iter()
        .map(|_| {
            let crossings = |y: u32| if (2..22).contains(&y) { vec![3, 27] } else { vec![] };
            let key_of = |x: u32| 2 * x + 1;
            let value_of = |_x: u32, _y: u32, inside: bool| if inside { 230u8 } else { 20u8 };
            let raster = sdf_generate(16, 24, &crossings, &key_of, &value_of);
            let metrics = Metrics { xmin: 0, ymin: -8, width: 16, height: 24, advance_width: 18 };
            GlyphSource { outline: Some((metrics, raster.buffer)), metrics: Some(metrics) }
        })
        .collect();
    generate_font(&chars, &sources, BitmapFormat::SDF).unwrap()
}

#[test]
fn compiled_text_leaves_ink_on_a_blank_buffer() {
    let entries = compile("A-B");
    assert_eq!(entries.len(), 2);
    for (bitmap, entry) in &entries {
        assert!(entry.width > 0 && entry.height > 0);
        assert!(!bitmap.is_empty());
    }
    let glyphs: Vec<Glyph> = entries
        .iter()
        .map(|(bitmap, entry)| Glyph {
            character: entry.character,
            bitmap,
            width: entry.width,
            height: entry.height,
            xmin: entry.xmin,
            ymin: entry.ymin,
            advance_width: entry.advance_width,
        })
        .collect();
    // compiled at 64 pixels, rendered at 16: a quarter of the size
    let font = Font { glyphs: &glyphs, size: 64, ascent: 48, descent: -16, format: BitmapFormat::SDF };
    assert!(font.check_sorted());
    let scaled: Vec<ScaledGlyph> = glyphs
        .iter()
        .map(|g| ScaledGlyph {
            advance: (g.advance_width as f32 * 0.25) as i32,
            rise: ((font.ascent - g.ymin - g.height) as f32 * 0.25) as i32,
            width: (g.width as f32 * 0.25) as i32,
            height: (g.height as f32 * 0.25) as i32,
        })
        .collect();
    let offsets = VerticalOffsets { top: -4, center: -8, baseline: -12 };
    let baseline = TextAlign { horizontal: AlignH::Left, vertical: AlignV::Baseline };

    let mut buffer = [0u32; 100];
    let mut target = BufferTarget::new(&mut buffer, 10, 10);
    assert_eq!(render(&mut target, "A", font, &scaled, offsets, 0, 0, baseline, 0xffffff, &locate, &shade), Ok(()));
    assert!(buffer.iter().any(|&p| p != 0));

    let mut again = [0u32; 100];
    let mut target = BufferTarget::new(&mut again, 10, 10);
    assert_eq!(render(&mut target, "A", font, &scaled, offsets, 0, 0, baseline, 0xffffff, &locate, &shade), Ok(()));
    assert_eq!(buffer, again);
}

#[test]
fn lines_that_leave_the_range_are_told() {
    let glyphs = glyphs();
    let font = Font { glyphs: &glyphs, size: 8, ascent: 6, descent: -2, format: BitmapFormat::Bitmap };
    let left = TextAlign::default();
    let right = TextAlign { horizontal: AlignH::Right, vertical: AlignV::Baseline };
    assert!(glyphr::check_line("AB A", font, &SCALED, OFFSETS, 0, 0, left));
    assert!(glyphr::check_line("AB A", font, &SCALED, OFFSETS, 0, 0, right));
    assert!(glyphr::check_line("", font, &SCALED, OFFSETS, i32::MAX, i32::MAX - 10, right));
    // the pen would pass the end of the range
    assert!(!glyphr::check_line("A", font, &SCALED, OFFSETS, i32::MAX, 0, left));
    assert!(glyphr::check_line("A", font, &SCALED, OFFSETS, i32::MAX - 4, 0, left));
    // nothing is placed behind a character without a glyph
    assert!(glyphr::check_line("xA", font, &SCALED, OFFSETS, i32::MAX, 0, left));
    // the top of the line
    assert!(!glyphr::check_line("", font, &SCALED, OFFSETS, 0, i32::MIN, left));
    assert!(glyphr::check_line("", font, &SCALED, OFFSETS, 0, i32::MIN + 2, left));
    // the top of a glyph
    assert!(!glyphr::check_line("A", font, &SCALED, OFFSETS, 0, i32::MAX - 1, left));
    // the left end of a right-aligned text
    assert!(!glyphr::check_line("A", font, &SCALED, OFFSETS, i32::MIN + 3, 0, right));
    assert!(glyphr::check_line("A", font, &SCALED, OFFSETS, i32::MIN + 4, 0, right));
}

#[test]
fn rasters_fit_the_index() {
    let glyphs = glyphs();
    let font = Font { glyphs: &glyphs, size: 8, ascent: 6, descent: -2, format: BitmapFormat::Bitmap };
    assert!(glyphr::check_rasters(&font));
    assert!(glyphr::check_raster(&glyphs[0]));
    let odd = Glyph { character: 'x', bitmap: &[], width: -5, height: i32::MAX, xmin: 0, ymin: 0, advance_width: 0 };
    assert!(glyphr::check_raster(&odd));
}

fn soft_shade(p: Neighbors, wx: f32, wy: f32) -> u8 {
    // mid value 0.5, smoothing 0.5
    let top = p.p00 as f32 / 255.0 + wx * (p.p10 as f32 / 255.0 - p.p00 as f32 / 255.0);
    let bottom = p.p01 as f32 / 255.0 + wx * (p.p11 as f32 / 255.0 - p.p01 as f32 / 255.0);
    let dist = top + wy * (bottom - top);
    if dist > 0.5 {
        let t = dist.clamp(0.0, 1.0);
        (t * t * (3.0 - 2.0 * t) * 255.0) as u8
    } else {
        0
    }
}

/// Renders `text` at 30 pixels from a font compiled at 64, in the colour
/// 0x112233, onto a buffer of 10 by 10 pixels.
fn render_at_30(text: &str, buffer: &mut [u32; 100]) -> Result<(), GlyphrError> {
    let entries = compile("a-z ");
    let glyphs: Vec<Glyph> = entries
        .iter()
        .map(|(bitmap, entry)| Glyph {
            character: entry.character,
            bitmap,
            width: entry.width,
            height: entry.height,
            xmin: entry.xmin,
            ymin: entry.ymin,
            advance_width: entry.advance_width,
        })
        .collect();
    let font = Font { glyphs: &glyphs, size: 64, ascent: 48, descent: -16, format: BitmapFormat::SDF };
    let scale = 30.0f32 / 64.0;
    let scaled: Vec<ScaledGlyph> = glyphs
        .iter()
        .map(|g| ScaledGlyph {
            advance: (g.advance_width as f32 * scale) as i32,
            rise: ((font.ascent - g.ymin - g.height) as f32 * scale) as i32,
            width: (g.width as f32 * scale) as i32,
            height: (g.height as f32 * scale) as i32,
        })
        .collect();
    let offsets = VerticalOffsets {
        top: (font.descent as f32 * scale) as i32,
        center: -(((font.ascent - font.descent) as f32 * scale) / 2.0) as i32,
        baseline: -(font.ascent as f32 * scale) as i32,
    };
    let mut target = BufferTarget::new(&mut buffer[..], 10, 10);
    render(&mut target, text, font, &scaled, offsets, 0, 0, TextAlign::default(), 0x112233, &locate, &soft_shade)
}

#[test]
fn test_render_glyph_valid() {
    let mut buffer = [0u32; 100];
    // we expect some pixels to be written
    assert_eq!(render_at_30("a", &mut buffer), Ok(()));
    assert!(buffer.iter().any(|&x| x != 0));
}

#[test]
fn test_render_whole_string() {
    let mut buffer = [0u32; 100];
    assert_eq!(render_at_30("hello world", &mut buffer), Ok(()));
    // Check the buffer is not empty
    let written = buffer.iter().any(|&x| x != 0);
    assert!(written);
}

#[test]
fn test_glyphr_multiple_renders_dont_corrupt() {
    let mut buffer = [0u32; 100];
    assert_eq!(render_at_30("up", &mut buffer), Ok(()));
    let once = buffer;
    assert_eq!(render_at_30("up", &mut buffer), Ok(()));

    let modified = buffer.iter().any(|&c| c != 0);
    assert!(modified);
    // opaque pixels stay as they are, and nothing else is touched
    for (first, second) in once.iter().zip(buffer.iter()) {
        if *first == 0 {
            assert_eq!(*second, 0);
        }
        if *first == 0xff112233 {
            assert_eq!(*second, 0xff112233);
        }
    }
}
