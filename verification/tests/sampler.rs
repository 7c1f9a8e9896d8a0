use glyphr::{plot_coverage, rle_encode, sample_neighbors, Glyph, GlyphrError, Neighbors, RenderTarget, SdfSampler};

struct Recorder {
    writes: Vec<(u32, u32, u32)>,
    accept: bool,
}

impl RenderTarget for Recorder {
    fn write_pixel(&mut self, x: u32, y: u32, color: u32) -> bool {
        self.writes.push((x, y, color));
        self.accept
    }

    fn dimensions(&self) -> (u32, u32) {
        (16, 16)
    }
}

fn neighbors(p00: u8, p10: u8, p01: u8, p11: u8) -> Neighbors {
    Neighbors { p00, p10, p01, p11 }
}

#[test]
fn sampler_reads_the_four_neighbours() {
    // 3 x 2 samples: 10 20 30
    //                40 50 60
    let stream = rle_encode(vec![10, 20, 30, 40, 50, 60]);
    let glyph = Glyph { character: 'x', bitmap: &stream, width: 3, height: 2, xmin: 0, ymin: 0, advance_width: 3 };
    let mut sampler = SdfSampler::new(&glyph);
    sampler.begin_row(0);
    assert_eq!(sampler.sample(0), neighbors(10, 20, 40, 50));
    assert_eq!(sampler.sample(0), neighbors(10, 20, 40, 50));
    assert_eq!(sampler.sample(1), neighbors(20, 30, 50, 60));
    assert_eq!(sampler.sample(2), neighbors(30, 30, 60, 60));
    sampler.begin_row(1);
    assert_eq!(sampler.sample(0), neighbors(40, 50, 40, 50));
    assert_eq!(sampler.sample(1), neighbors(50, 60, 50, 60));
    assert_eq!(sampler.sample(2), neighbors(60, 60, 60, 60));
    // going back to an earlier row reads the stream again
    sampler.begin_row(0);
    assert_eq!(sampler.sample(1), neighbors(20, 30, 50, 60));

    for top in 0..2usize {
        sampler.begin_row(top);
        for left in 0..3usize {
            assert_eq!(sampler.sample(left), sample_neighbors(&glyph, left, top));
        }
    }
}

#[test]
fn sampler_on_a_fresh_glyph_stands_on_the_first_row() {
    let stream = rle_encode(vec![1, 2, 3, 4]);
    let glyph = Glyph { character: 'x', bitmap: &stream, width: 2, height: 2, xmin: 0, ymin: 0, advance_width: 3 };
    let mut sampler = SdfSampler::new(&glyph);
    assert_eq!(sampler.sample(0), neighbors(1, 2, 3, 4));
    assert_eq!(sampler.sample(1), neighbors(2, 2, 4, 4));
}

#[test]
fn samples_behind_the_stream_are_zero() {
    // the stream holds 4 of the 6 samples
    let stream = [4u8, 9];
    let glyph = Glyph { character: 'x', bitmap: &stream, width: 3, height: 2, xmin: 0, ymin: 0, advance_width: 3 };
    let mut sampler = SdfSampler::new(&glyph);
    sampler.begin_row(0);
    assert_eq!(sampler.sample(0), neighbors(9, 9, 9, 0));
    assert_eq!(sampler.sample(2), neighbors(9, 9, 0, 0));
    assert_eq!(sample_neighbors(&glyph, 2, 1), neighbors(0, 0, 0, 0));

    let empty = Glyph { character: ' ', bitmap: &[], width: 1, height: 1, xmin: 0, ymin: 0, advance_width: 3 };
    assert_eq!(SdfSampler::new(&empty).sample(0), neighbors(0, 0, 0, 0));
}

#[test]
fn covered_pixels_are_handed_to_the_target() {
    let mut target = Recorder { writes: Vec::new(), accept: true };
    assert_eq!(plot_coverage(&mut target, 3, 4, 0, 0x00ffffff), Ok(()));
    assert!(target.writes.is_empty());
    assert_eq!(plot_coverage(&mut target, 3, 4, 0x80, 0xff123456), Ok(()));
    assert_eq!(plot_coverage(&mut target, 5, 6, 0xff, 0x00abcdef), Ok(()));
    assert_eq!(target.writes, vec![(3, 4, 0x80123456), (5, 6, 0xffabcdef)]);

    let mut target = Recorder { writes: Vec::new(), accept: false };
    assert_eq!(plot_coverage(&mut target, 1, 1, 1, 0), Err(GlyphrError::InvalidTarget));
    assert_eq!(plot_coverage(&mut target, 1, 1, 0, 0), Ok(()));
    assert_eq!(target.writes, vec![(1, 1, 0x01000000)]);
}
