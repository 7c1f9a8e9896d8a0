//! Generating the raster of a glyph: a distance value for every pixel, with
//! the sign resolved row by row from the crossings of the outline.
//!
//! Distances and coordinates are fractions. What works on them is handed in
//! as functions; coordinates pass through here as keys, unsigned numbers in
//! the order of the coordinates they stand for.

use crate::scanline::{is_inside, scanline, scanline_scan};
use crate::sorted::increasing;
use vstd::prelude::*;

verus! {

/// The quantized raster of one glyph: `width * height` samples in row-major
/// order.
pub struct SdfRaster {
    pub width: u32,
    pub height: u32,
    pub buffer: Vec<u8>,
}

/// `line` holds the crossings of the outline with row `y`: what the crossing
/// function gives for the row, in increasing order and each key once.
pub open spec fn row_crossed<C: Fn(u32) -> Vec<u32>>(crossings: &C, y: u32, line: Seq<u32>) -> bool {
    exists|found: Vec<u32>| #[trigger]
        call_ensures(*crossings, (y,), found) && increasing(line) && forall|k: u32|
            line.contains(k) <==> found@.contains(k)
}

/// `sample` is a value of the pixel `(x, y)` in a row with the crossings
/// `line`: what the value function gives for the pixel, told whether the key
/// of its column lies inside the outline.
pub open spec fn sample_valued<K: Fn(u32) -> u32, V: Fn(u32, u32, bool) -> u8>(
    key_of: &K,
    value_of: &V,
    x: u32,
    y: u32,
    line: Seq<u32>,
    sample: u8,
) -> bool {
    exists|key: u32| #[trigger]
        call_ensures(*key_of, (x,), key) && call_ensures(
            *value_of,
            (x, y, is_inside(line, key)),
            sample,
        )
}

/// `row` holds the samples of row `y`.
pub open spec fn row_generated<
    C: Fn(u32) -> Vec<u32>,
    K: Fn(u32) -> u32,
    V: Fn(u32, u32, bool) -> u8,
>(crossings: &C, key_of: &K, value_of: &V, y: u32, row: Seq<u8>) -> bool {
    exists|line: Seq<u32>| #[trigger]
        row_crossed(crossings, y, line) && forall|x: int|
            0 <= x < row.len() ==> sample_valued(
                key_of,
                value_of,
                x as u32,
                y,
                line,
                #[trigger] row[x],
            )
}

/// Row `y` of a raster of `width` samples a row.
pub open spec fn raster_row(buffer: Seq<u8>, width: int, y: int) -> Seq<u8> {
    buffer.subrange(y * width, y * width + width)
}

/// Generates the raster of a glyph, `width` by `height` samples.
///
/// `crossings(y)` gives the keys of the places where the outline crosses row
/// `y`, `key_of(x)` the key of the centre of column `x`, and
/// `value_of(x, y, inside)` the sample of a pixel, told whether the pixel
/// lies inside the outline: a pixel with an odd number of crossings strictly
/// before it does.
pub fn sdf_generate<C: Fn(u32) -> Vec<u32>, K: Fn(u32) -> u32, V: Fn(u32, u32, bool) -> u8>(
    width: u32,
    height: u32,
    crossings: &C,
    key_of: &K,
    value_of: &V,
) -> (raster: SdfRaster)
    requires
        width * height <= usize::MAX,
        forall|y: u32| call_requires(*crossings, (y,)),
        forall|x: u32| call_requires(*key_of, (x,)),
        forall|x: u32, y: u32, inside: bool| call_requires(*value_of, (x, y, inside)),
    ensures
        raster.width == width,
        raster.height == height,
        raster.buffer@.len() == width * height,
        forall|y: int|
            0 <= y < height ==> row_generated(
                crossings,
                key_of,
                value_of,
                y as u32,
                #[trigger] raster_row(raster.buffer@, width as int, y),
            ),
{
    let mut buffer: Vec<u8> = Vec::new();
    let mut y: u32 = 0;
    while y < height
        invariant
            y <= height,
            width * height <= usize::MAX,
            forall|y: u32| call_requires(*crossings, (y,)),
            forall|x: u32| call_requires(*key_of, (x,)),
            forall|x: u32, y: u32, inside: bool| call_requires(*value_of, (x, y, inside)),
            buffer@.len() == y * width,
            forall|done: int|
                0 <= done < y ==> row_generated(
                    crossings,
                    key_of,
                    value_of,
                    done as u32,
                    #[trigger] raster_row(buffer@, width as int, done),
                ),
        decreases height - y,
    {
        let found = crossings(y);
        let line = scanline(found.as_slice());
        assert(row_crossed(crossings, y, line@));
        let mut row: Vec<u8> = Vec::new();
        let mut x: u32 = 0;
        while x < width
            invariant
                x <= width,
                forall|x: u32| call_requires(*key_of, (x,)),
                forall|x: u32, y: u32, inside: bool| call_requires(*value_of, (x, y, inside)),
                row@.len() == x,
                forall|at: int|
                    0 <= at < row@.len() ==> sample_valued(
                        key_of,
                        value_of,
                        at as u32,
                        y,
                        line@,
                        #[trigger] row@[at],
                    ),
            decreases width - x,
        {
            let key = key_of(x);
            let inside = scanline_scan(line.as_slice(), key);
            let sample = value_of(x, y, inside);
            assert(sample_valued(key_of, value_of, x, y, line@, sample));
            row.push(sample);
            x = x + 1;
        }
        assert(row_generated(crossings, key_of, value_of, y, row@));
        let ghost above = buffer@;
        let ghost added = row@;
        proof {
            assert(y * width + width == (y + 1) * width) by (nonlinear_arith);
            assert((y + 1) * width <= height * width) by (nonlinear_arith)
                requires
                    y + 1 <= height,
                    0 <= width,
            ;
            assert(height * width == width * height) by (nonlinear_arith);
        }
        buffer.append(&mut row);
        proof {
            assert(buffer@ == above + added);
            assert(raster_row(buffer@, width as int, y as int) =~= added);
            assert forall|done: int| 0 <= done < y + 1 implies row_generated(
                crossings,
                key_of,
                value_of,
                done as u32,
                #[trigger] raster_row(buffer@, width as int, done),
            ) by {
                if done < y {
                    assert(done * width + width <= y * width) by (nonlinear_arith)
                        requires
                            0 <= done < y,
                            0 <= width,
                    ;
                    assert(0 <= done * width) by (nonlinear_arith)
                        requires
                            0 <= done,
                            0 <= width,
                    ;
                    assert(raster_row(buffer@, width as int, done) =~= raster_row(
                        above,
                        width as int,
                        done,
                    ));
                }
            }
        }
        y = y + 1;
    }
    proof {
        assert(height * width == width * height) by (nonlinear_arith);
    }
    SdfRaster { width, height, buffer }
}

} // verus!
