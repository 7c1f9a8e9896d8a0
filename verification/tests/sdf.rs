use glyphr::{
    generate_font, parse_char_set, render_glyph_sdf, rle_encode, sdf_generate, BitmapFormat, BufferTarget, Font,
    Glyph, GlyphSource, GlyphrError, Metrics, Neighbors, RenderTarget,
};

struct Recorder {
    size: (u32, u32),
    writes: Vec<(u32, u32, u32)>,
    accept: usize,
}

impl RenderTarget for Recorder {
    fn write_pixel(&mut self, x: u32, y: u32, color: u32) -> bool {
        self.writes.push((x, y, color));
        self.writes.len() <= self.accept
    }

    fn dimensions(&self) -> (u32, u32) {
        self.size
    }
}

fn smoothstep(edge0: f32, edge1: f32, x: f32) -> f32 {
    let t = ((x - edge0) / (edge1 - edge0)).clamp(0.0, 1.0);
    t * t * (3.0 - 2.0 * t)
}

fn mix(v1: f32, v2: f32, weight: f32) -> f32 {
    v1 + (v2 - v1) * weight
}

fn locate(offset: i32, out_size: i32, src_size: i32) -> (usize, f32) {
    let s = ((offset as f32 + 0.5) * (1.0 / out_size as f32) * (src_size as f32) - 0.5).max(0.0);
    let at = (s.floor() as isize).clamp(0, src_size as isize - 1) as usize;
    (at, s - at as f32)
}

fn shade(p: Neighbors, wx: f32, wy: f32) -> u8 {
    let top = mix(p.p00 as f32 / 255.0, p.p10 as f32 / 255.0, wx);
    let bottom = mix(p.p01 as f32 / 255.0, p.p11 as f32 / 255.0, wx);
    let dist = mix(top, bottom, wy);
    if dist > 0.5 {
        (smoothstep(0.4, 0.6, dist) * 255.0) as u8
    } else {
        0
    }
}

/// The raster of a filled box that leaves a margin of two samples on each
/// side: 230 inside, 20 outside.
fn box_field(width: u32, height: u32) -> Vec<u8> {
    let crossings = |y: u32| if y >= 2 && y < height - 2 { vec![2 * (width - 2) - 1, 2 * 2 - 1] } else { vec![] };
    // the centre of column x lies at x + 1/2: in halves, at 2 x + 1
    let key_of = |x: u32| 2 * x + 1;
    let value_of = |_x: u32, _y: u32, inside: bool| if inside { 230u8 } else { 20u8 };
    let raster = sdf_generate(width, height, &crossings, &key_of, &value_of);
    assert_eq!((raster.width, raster.height), (width, height));
    raster.buffer
}

#[test]
fn raster_is_generated_row_by_row() {
    let field = box_field(6, 5);
    let expected = vec![
        20, 20,  20,  20, 20, 20,
        20, 20,  20,  20, 20, 20,
        20, 20, 230, 230, 20, 20,
        20, 20,  20,  20, 20, 20,
        20, 20,  20,  20, 20, 20,
    ];
    assert_eq!(field, expected);
}

#[test]
fn raster_holds_what_the_value_function_gives() {
    let crossings = |y: u32| vec![y, 10, y];
    let key_of = |x: u32| 3 * x;
    let value_of = |x: u32, y: u32, inside: bool| (10 * y + x) as u8 + if inside { 100 } else { 0 };
    let raster = sdf_generate(4, 3, &crossings, &key_of, &value_of);
    // row y is crossed at y and at 10; column x has the key 3 x
    let expected = vec![
         0, 101, 102, 103,
        10, 111, 112, 113,
        20, 121, 122, 123,
    ];
    assert_eq!(raster.buffer, expected);
    assert_eq!(sdf_generate(0, 7, &crossings, &key_of, &value_of).buffer, Vec::<u8>::new());
    assert_eq!(sdf_generate(7, 0, &crossings, &key_of, &value_of).buffer, Vec::<u8>::new());
}

#[test]
fn sign_of_a_square_is_resolved_by_parity() {
    // a square outline from 10 to 20: rows strictly between its top and its
    // bottom cross its left and its right side
    let crossings = |y: u32| if 10 < y && y < 20 { vec![20, 10] } else { vec![] };
    let key_of = |x: u32| x;
    let value_of = |_x: u32, _y: u32, inside: bool| inside as u8;
    let raster = sdf_generate(30, 30, &crossings, &key_of, &value_of);
    for y in 0..30u32 {
        for x in 0..30u32 {
            let sample = raster.buffer[(y * 30 + x) as usize];
            if 10 < x && x < 20 && 10 < y && y < 20 {
                assert_eq!(sample, 1);
            }
            if x < 10 || x > 20 || y < 10 || y > 20 {
                assert_eq!(sample, 0);
            }
        }
    }
}

#[test]
fn compiled_glyph_leaves_ink_on_a_blank_buffer() {
    let chars = parse_char_set("A-B");
    let sources: Vec<GlyphSource> = [8u32, 10]
        .iter()
        .map(|&w| {
            let metrics = Metrics { xmin: 0, ymin: 0, width: w as i32, height: 12, advance_width: w as i32 + 1 };
            GlyphSource { outline: Some((metrics, box_field(w, 12))), metrics: Some(metrics) }
        })
        .collect();
    let entries = generate_font(&chars, &sources, BitmapFormat::SDF).unwrap();
    assert_eq!(entries.len(), 2);
    for (bitmap, entry) in &entries {
        assert!(entry.width > 0 && entry.height > 0);
        assert!(!bitmap.is_empty());
    }
    let glyphs: Vec<Glyph> = entries
        .iter()
        .map(|(bitmap, entry)| Glyph {
            character: entry.character,
            bitmap,
            width: entry.width,
            height: entry.height,
            xmin: entry.xmin,
            ymin: entry.ymin,
            advance_width: entry.advance_width,
        })
        .collect();
    let font = Font { glyphs: &glyphs, size: 12, ascent: 12, descent: 0, format: BitmapFormat::SDF };
    assert!(font.check_sorted());

    let mut buffer = [0u32; 100];
    let mut target = BufferTarget::new(&mut buffer, 10, 10);
    let glyph = font.find_glyph('A').unwrap();
    assert_eq!(render_glyph_sdf(0, 0, glyph, 8, 12, 0x00ffffff, &locate, &shade, &mut target), Ok(()));
    assert!(buffer.iter().any(|&p| p != 0));
    // the middle of the box is covered, its margin is not
    assert_eq!(buffer[5 * 10 + 4], 0xffffffff);
    assert_eq!(buffer[0], 0);

    let mut again = [0u32; 100];
    let mut target = BufferTarget::new(&mut again, 10, 10);
    assert_eq!(render_glyph_sdf(0, 0, glyph, 8, 12, 0x00ffffff, &locate, &shade, &mut target), Ok(()));
    assert_eq!(buffer, again);
}

#[test]
fn scaled_glyph_is_sampled_between_its_samples() {
    let stream = rle_encode(box_field(8, 8));
    let glyph = Glyph { character: 'x', bitmap: &stream, width: 8, height: 8, xmin: 0, ymin: 0, advance_width: 8 };
    let mut buffer = [0u32; 256];
    let mut target = BufferTarget::new(&mut buffer, 16, 16);
    assert_eq!(render_glyph_sdf(0, 0, &glyph, 16, 16, 0x00ff0000, &locate, &shade, &mut target), Ok(()));
    assert_eq!(buffer[8 * 16 + 8], 0xffff0000);
    assert_eq!(buffer[0], 0);
    assert_eq!(buffer[15 * 16 + 15], 0);
}

#[test]
fn every_pixel_of_the_box_is_shaded_in_scan_order() {
    // samples 1 2 / 3 4, drawn at twice the size with the nearest sample
    let stream = rle_encode(vec![1, 2, 3, 4]);
    let glyph = Glyph { character: 'x', bitmap: &stream, width: 2, height: 2, xmin: 0, ymin: 0, advance_width: 2 };
    let nearest = |offset: i32, _out: i32, _src: i32| ((offset / 2) as usize, ());
    let top_left = |p: Neighbors, _wx: (), _wy: ()| p.p00;
    let mut target = Recorder { size: (100, 100), writes: Vec::new(), accept: 100 };
    assert_eq!(render_glyph_sdf(10, 20, &glyph, 4, 4, 0x00abcdef, &nearest, &top_left, &mut target), Ok(()));
    let mut expected = Vec::new();
    for oy in 0..4u32 {
        for ox in 0..4u32 {
            let alpha = [1u32, 2, 3, 4][(oy / 2 * 2 + ox / 2) as usize];
            expected.push((10 + ox, 20 + oy, alpha << 24 | 0xabcdef));
        }
    }
    assert_eq!(target.writes, expected);
}

#[test]
fn uncovered_pixels_are_not_written_and_places_are_kept_inside() {
    let stream = rle_encode(vec![0, 9, 0, 7]);
    let glyph = Glyph { character: 'x', bitmap: &stream, width: 2, height: 2, xmin: 0, ymin: 0, advance_width: 2 };
    // a locator that names places far behind the raster
    let beyond = |offset: i32, _out: i32, _src: i32| (if offset == 0 { 0 } else { 1000 }, ());
    let top_left = |p: Neighbors, _wx: (), _wy: ()| p.p00;
    let mut target = Recorder { size: (100, 100), writes: Vec::new(), accept: 100 };
    assert_eq!(render_glyph_sdf(0, 0, &glyph, 2, 2, 0, &beyond, &top_left, &mut target), Ok(()));
    assert_eq!(target.writes, vec![(1, 0, 0x09000000), (1, 1, 0x07000000)]);
}

#[test]
fn sdf_glyph_is_clipped_and_stops_at_a_refused_pixel() {
    let stream = rle_encode(vec![255; 9]);
    let glyph = Glyph { character: 'x', bitmap: &stream, width: 3, height: 3, xmin: 0, ymin: 0, advance_width: 3 };
    let same = |offset: i32, _out: i32, _src: i32| (offset as usize, ());
    let top_left = |p: Neighbors, _wx: (), _wy: ()| p.p00;

    let mut target = Recorder { size: (2, 2), writes: Vec::new(), accept: 100 };
    assert_eq!(render_glyph_sdf(-1, 1, &glyph, 3, 3, 0, &same, &top_left, &mut target), Ok(()));
    assert_eq!(target.writes, vec![(0, 1, 0xff000000), (1, 1, 0xff000000)]);

    let mut target = Recorder { size: (8, 8), writes: Vec::new(), accept: 4 };
    assert_eq!(
        render_glyph_sdf(0, 0, &glyph, 3, 3, 0, &same, &top_left, &mut target),
        Err(GlyphrError::InvalidTarget)
    );
    assert_eq!(target.writes.len(), 5);
    assert_eq!(target.writes[4], (1, 1, 0xff000000));

    let mut target = Recorder { size: (8, 8), writes: Vec::new(), accept: 0 };
    assert_eq!(render_glyph_sdf(0, 0, &glyph, 0, 3, 0, &same, &top_left, &mut target), Ok(()));
    assert_eq!(render_glyph_sdf(0, 0, &glyph, 3, -1, 0, &same, &top_left, &mut target), Ok(()));
    assert_eq!(render_glyph_sdf(8, 0, &glyph, 3, 3, 0, &same, &top_left, &mut target), Ok(()));
    let empty = Glyph { character: ' ', bitmap: &[], width: 0, height: 0, xmin: 0, ymin: 0, advance_width: 3 };
    assert_eq!(render_glyph_sdf(0, 0, &empty, 3, 3, 0, &same, &top_left, &mut target), Ok(()));
    assert!(target.writes.is_empty());
}
