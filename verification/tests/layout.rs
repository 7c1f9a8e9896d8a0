use glyphr::{
    glyph_rise, horizontal_offset, line_height, phrase_length, vertical_offset, AlignH, AlignV, BitmapFormat, Font,
    Glyph, GlyphrError, Pen, Placement, ScaledGlyph, TextAlign, VerticalOffsets,
};

fn glyph(character: char, ymin: i32, height: i32, advance_width: i32) -> Glyph<'static> {
    Glyph { character, bitmap: &[], width: 4, height, xmin: 0, ymin, advance_width }
}

const SCALED: [ScaledGlyph; 3] = [
    ScaledGlyph { advance: 2, rise: 6, width: 0, height: 0 },
    ScaledGlyph { advance: 5, rise: 2, width: 4, height: 10 },
    ScaledGlyph { advance: 3, rise: 1, width: 4, height: 11 },
];

const OFFSETS: VerticalOffsets = VerticalOffsets { top: -2, center: -8, baseline: -12 };

#[test]
fn phrase_length_is_the_sum_of_the_advances() {
    let glyphs = [glyph(' ', 0, 0, 4), glyph('A', 0, 20, 10), glyph('B', -2, 22, 7)];
    let font = Font { glyphs: &glyphs, size: 32, ascent: 24, descent: -8, format: BitmapFormat::SDF };
    assert_eq!(phrase_length("", font, &SCALED), 0);
    assert_eq!(phrase_length("A", font, &SCALED), 5);
    assert_eq!(phrase_length("AB A", font, &SCALED), 5 + 3 + 2 + 5);
    // a character without a glyph counts 0
    assert_eq!(phrase_length("AxB\n", font, &SCALED), 8);
    assert_eq!(phrase_length("AB A", font, &SCALED), phrase_length("AB A", font, &SCALED));
}

#[test]
fn negative_advances_count_too() {
    let glyphs = [glyph('A', 0, 20, 10), glyph('B', -2, 22, 7)];
    let font = Font { glyphs: &glyphs, size: 32, ascent: 24, descent: -8, format: BitmapFormat::Bitmap };
    let scaled = [ScaledGlyph { advance: -4, rise: 0, width: 0, height: 0 }, ScaledGlyph { advance: 1, rise: 0, width: 0, height: 0 }];
    assert_eq!(phrase_length("AAB", font, &scaled), -7);
}

#[test]
fn alignment_picks_the_offsets() {
    assert_eq!(horizontal_offset(AlignH::Left, 13), 0);
    assert_eq!(horizontal_offset(AlignH::Center, 13), 6);
    assert_eq!(horizontal_offset(AlignH::Right, 13), 13);
    assert_eq!(horizontal_offset(AlignH::Center, -13), -6);
    assert_eq!(horizontal_offset(AlignH::Center, i32::MIN), i32::MIN / 2);
    assert_eq!(vertical_offset(AlignV::Top, OFFSETS), -2);
    assert_eq!(vertical_offset(AlignV::Center, OFFSETS), -8);
    assert_eq!(vertical_offset(AlignV::Baseline, OFFSETS), -12);
}

#[test]
fn font_measures() {
    let glyphs = [glyph('g', -6, 18, 9)];
    let font = Font { glyphs: &glyphs, size: 32, ascent: 24, descent: -8, format: BitmapFormat::SDF };
    assert_eq!(line_height(&font), 32);
    assert_eq!(glyph_rise(&font, &glyphs[0]), 24 + 6 - 18);
    let wide = Font { glyphs: &glyphs, size: 32, ascent: i32::MAX, descent: i32::MIN, format: BitmapFormat::SDF };
    assert_eq!(line_height(&wide), i32::MAX as i64 - i32::MIN as i64);
}

#[test]
fn pen_places_glyphs_along_the_line() {
    let glyphs = [glyph(' ', 0, 0, 4), glyph('A', 0, 20, 10), glyph('B', -2, 22, 7)];
    let font = Font { glyphs: &glyphs, size: 32, ascent: 24, descent: -8, format: BitmapFormat::SDF };
    let align = TextAlign { horizontal: AlignH::Center, vertical: AlignV::Baseline };
    let length = phrase_length("AB", font, &SCALED);
    assert_eq!(length, 8);
    let mut pen = Pen::start(100, 50, align, length, OFFSETS);
    assert_eq!(pen, Pen { x: 100, x_offset: 4, y: 38 });
    assert_eq!(pen.place(&font, &SCALED, 'A'), Ok(Placement { index: 1, x: 96, y: 40 }));
    assert_eq!(pen.x, 105);
    assert_eq!(pen.place(&font, &SCALED, 'B'), Ok(Placement { index: 2, x: 101, y: 39 }));
    assert_eq!(pen, Pen { x: 108, x_offset: 4, y: 38 });
}

#[test]
fn pen_stops_at_a_character_without_a_glyph() {
    let glyphs = [glyph('A', 0, 20, 10)];
    let font = Font { glyphs: &glyphs, size: 32, ascent: 24, descent: -8, format: BitmapFormat::SDF };
    let scaled = [ScaledGlyph { advance: 5, rise: 2, width: 4, height: 10 }];
    let mut pen = Pen::start(0, 0, TextAlign::default(), 5, OFFSETS);
    assert_eq!(pen, Pen { x: 0, x_offset: 0, y: -2 });
    assert_eq!(pen.place(&font, &scaled, '\n'), Err(GlyphrError::InvalidGlyph('\n')));
    assert_eq!(pen, Pen { x: 0, x_offset: 0, y: -2 });
    assert_eq!(pen.place(&font, &scaled, 'A'), Ok(Placement { index: 0, x: 0, y: 0 }));
}

#[test]
fn phrases_that_overflow_the_pen_are_told() {
    let glyphs = [glyph('A', 0, 20, 10), glyph('B', -2, 22, 7)];
    let font = Font { glyphs: &glyphs, size: 32, ascent: 24, descent: -8, format: BitmapFormat::Bitmap };
    let wide = [
        ScaledGlyph { advance: i32::MAX, rise: 0, width: 0, height: 0 },
        ScaledGlyph { advance: -1, rise: 0, width: 0, height: 0 },
    ];
    assert!(glyphr::check_phrase("", font, &wide));
    assert!(glyphr::check_phrase("A", font, &wide));
    assert!(glyphr::check_phrase("AB", font, &wide));
    assert!(glyphr::check_phrase("BA", font, &wide));
    assert!(!glyphr::check_phrase("ABA", font, &wide));
    assert!(!glyphr::check_phrase("AA", font, &wide));
    assert!(!glyphr::check_phrase("AAB", font, &wide));
    assert!(glyphr::check_phrase("BBBxB", font, &wide));
    assert_eq!(phrase_length("AB", font, &wide), i32::MAX - 1);
}
