use glyphr::{
    compile_glyph, generate_font, glyph_name, pack_bitmap, parse_char_set, rle_decode, BitmapFormat, CompileError,
    FontSettings, GlyphSource, Metrics,
};

fn metrics(width: i32, height: i32, advance_width: i32) -> Metrics {
    Metrics { xmin: 1, ymin: -2, width, height, advance_width }
}

fn outlined(width: i32, height: i32) -> GlyphSource {
    let raster: Vec<u8> = (0..(width * height) as u32).map(|i| if i % 3 == 0 { 200 } else { 40 }).collect();
    GlyphSource { outline: Some((metrics(width, height, width + 1), raster)), metrics: Some(metrics(width, height, width + 1)) }
}

#[test]
fn line_size_is_ascent_over_descent_and_gap() {
    assert_eq!(glyphr::new_line_size(1900, -500, 90), 2490);
    assert_eq!(glyphr::new_line_size(i16::MAX, i16::MIN, i16::MAX), 3 * 32767 + 1);
    assert_eq!(glyphr::new_line_size(0, 0, 0), 0);
}

#[test]
fn defaults() {
    assert_eq!(FontSettings::default().collection_index, 0);
    assert_eq!(Metrics::default(), Metrics { xmin: 0, ymin: 0, width: 0, height: 0, advance_width: 0 });
}

#[test]
fn packing_sets_the_bits_of_inked_pixels() {
    assert_eq!(pack_bitmap(&[]), Vec::<u8>::new());
    assert_eq!(pack_bitmap(&[200, 0, 200, 0, 200, 0]), vec![0b1010_1000]);
    assert_eq!(pack_bitmap(&[129, 128, 127, 255, 0, 0, 0, 129, 129]), vec![0b1001_0001, 0b1000_0000]);
    assert_eq!(pack_bitmap(&[255; 8]), vec![0xff]);
    assert_eq!(pack_bitmap(&[255; 16]), vec![0xff, 0xff]);
    assert_eq!(pack_bitmap(&[255; 17]), vec![0xff, 0xff, 0x80]);
}

#[test]
fn glyphs_are_named_by_their_number() {
    assert_eq!(glyph_name('A'), "GLYPH_65");
    assert_eq!(glyph_name('\0'), "GLYPH_0");
    assert_eq!(glyph_name('\t'), "GLYPH_9");
    assert_eq!(glyph_name('d'), "GLYPH_100");
    assert_eq!(glyph_name('é'), "GLYPH_233");
    assert_eq!(glyph_name('\u{10FFFF}'), "GLYPH_1114111");
}

#[test]
fn outline_compiles_to_its_stored_raster() {
    let source = outlined(4, 3);
    let raster = source.outline.as_ref().unwrap().1.clone();

    let (bitmap, entry) = compile_glyph('A', &source, BitmapFormat::SDF).unwrap();
    assert_eq!(rle_decode(&bitmap), raster);
    assert_eq!(bitmap, vec![1, 200, 2, 40, 1, 200, 2, 40, 1, 200, 2, 40, 1, 200, 2, 40]);
    assert_eq!(entry.character, 'A');
    assert_eq!(entry.name, "GLYPH_65");
    assert_eq!((entry.xmin, entry.ymin, entry.width, entry.height, entry.advance_width), (1, -2, 4, 3, 5));

    let (bitmap, entry) = compile_glyph('A', &source, BitmapFormat::Bitmap).unwrap();
    assert_eq!(bitmap, vec![0b1001_0010, 0b0100_0000]);
    assert_eq!(entry.width, 4);
}

#[test]
fn white_space_without_an_outline_is_a_placeholder() {
    let nothing = GlyphSource { outline: None, metrics: None };
    let (bitmap, entry) = compile_glyph(' ', &nothing, BitmapFormat::SDF).unwrap();
    assert!(bitmap.is_empty());
    assert_eq!(entry.character, ' ');
    assert_eq!(entry.name, "GLYPH_32");
    assert_eq!((entry.xmin, entry.ymin, entry.width, entry.height, entry.advance_width), (0, 0, 0, 0, 0));
    assert!(compile_glyph('\u{2003}', &nothing, BitmapFormat::Bitmap).is_some());
    assert!(compile_glyph('\n', &nothing, BitmapFormat::Bitmap).is_some());
}

#[test]
fn reported_advance_makes_a_placeholder() {
    let reported = GlyphSource { outline: None, metrics: Some(metrics(0, 0, 7)) };
    let (bitmap, entry) = compile_glyph('x', &reported, BitmapFormat::SDF).unwrap();
    assert!(bitmap.is_empty());
    assert_eq!((entry.xmin, entry.ymin, entry.width, entry.height, entry.advance_width), (1, -2, 0, 0, 7));
}

#[test]
fn missing_glyph_does_not_compile() {
    let nothing = GlyphSource { outline: None, metrics: None };
    assert!(compile_glyph('x', &nothing, BitmapFormat::SDF).is_none());
    let no_advance = GlyphSource { outline: None, metrics: Some(metrics(3, 3, 0)) };
    assert!(compile_glyph('x', &no_advance, BitmapFormat::SDF).is_none());
    assert!(compile_glyph('_', &no_advance, BitmapFormat::Bitmap).is_none());
}

#[test]
fn font_has_one_entry_for_each_character_in_order() {
    let chars = parse_char_set("C-A ");
    assert_eq!(chars, vec![' ', 'A', 'C']);
    let sources = vec![GlyphSource { outline: None, metrics: None }, outlined(2, 2), outlined(3, 1)];
    let entries = generate_font(&chars, &sources, BitmapFormat::SDF).unwrap();
    assert_eq!(entries.len(), 3);
    let found: Vec<char> = entries.iter().map(|e| e.1.character).collect();
    assert_eq!(found, chars);
    for pair in found.windows(2) {
        assert!(pair[0] < pair[1]);
    }
    assert!(entries[0].0.is_empty());
    assert_eq!(entries[1].0, vec![1, 200, 2, 40, 1, 200]);
    assert_eq!(entries[2].0, vec![1, 200, 2, 40]);
    assert_eq!(entries[2].1.name, "GLYPH_67");
}

#[test]
fn first_missing_glyph_ends_the_compilation() {
    let chars = parse_char_set("a-d");
    let sources = vec![
        outlined(2, 2),
        GlyphSource { outline: None, metrics: None },
        outlined(2, 2),
        GlyphSource { outline: None, metrics: None },
    ];
    assert_eq!(
        generate_font(&chars, &sources, BitmapFormat::Bitmap).err(),
        Some(CompileError::IncompleteFont('b'))
    );
}

#[test]
fn range_of_two_compiles_to_two_glyphs_with_ink() {
    let chars = parse_char_set("A-B");
    let sources = vec![outlined(8, 9), outlined(7, 9)];
    let entries = generate_font(&chars, &sources, BitmapFormat::SDF).unwrap();
    assert_eq!(entries.len(), 2);
    for (bitmap, entry) in &entries {
        assert!(entry.width > 0 && entry.height > 0);
        assert!(!bitmap.is_empty());
        assert_eq!(rle_decode(bitmap).len(), (entry.width * entry.height) as usize);
    }
}
