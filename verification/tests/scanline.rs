use glyphr::{scanline, scanline_scan};

#[test]
fn scanline_sorts_and_drops_repeats() {
    assert_eq!(scanline(&[5, 1, 5, 3, 1]), vec![1, 3, 5]);
    assert_eq!(scanline(&[]), Vec::<u32>::new());
    assert_eq!(scanline(&[7, 7, 7]), vec![7]);
    assert_eq!(scanline(&[u32::MAX, 0]), vec![0, u32::MAX]);
}

#[test]
fn parity_tells_inside_from_outside() {
    let line = [2u32, 8];
    assert!(!scanline_scan(&line, 0));
    assert!(!scanline_scan(&line, 2));
    assert!(scanline_scan(&line, 3));
    assert!(scanline_scan(&line, 8));
    assert!(!scanline_scan(&line, 9));
    assert!(!scanline_scan(&[], 4));
}

#[test]
fn pixels_of_a_square_are_inside_between_its_sides() {
    // a square from 10 to 20 in both directions: every row through it
    // crosses the outline at its left and at its right side
    let left = 10u32;
    let right = 20u32;
    for y in 0..30u32 {
        let crossings: Vec<u32> = if left < y && y < right { vec![right, left] } else { vec![] };
        let line = scanline(&crossings);
        for x in 0..30u32 {
            let inside = left < x && x < right && left < y && y < right;
            let outside = x < left || x > right || y < left || y > right;
            let odd = scanline_scan(&line, x);
            if inside {
                assert!(odd);
            }
            if outside {
                assert!(!odd);
            }
        }
    }
}

#[test]
fn two_shapes_in_one_row() {
    let line = scanline(&[30, 10, 20, 40]);
    let inside: Vec<u32> = (0..50).filter(|&x| scanline_scan(&line, x)).collect();
    let expected: Vec<u32> = (11..=20).chain(31..=40).collect();
    assert_eq!(inside, expected);
}
