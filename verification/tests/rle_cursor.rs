use glyphr::{rle_decode, rle_decode_at, rle_encode, RleCursor};

#[test]
fn single_run() {
    // Stream encodes: 3 x 42
    let buf = [3u8, 42];
    let mut cur = RleCursor::new(&buf);

    assert_eq!(cur.get(0), 42);
    assert_eq!(cur.get(1), 42);
    assert_eq!(cur.get(2), 42);
}

#[test]
fn multiple_runs() {
    // Stream encodes: [2 x 10, 3 x 20]
    let buf = [2, 10, 3, 20];
    let mut cur = RleCursor::new(&buf);

    assert_eq!(cur.get(0), 10);
    assert_eq!(cur.get(1), 10);
    assert_eq!(cur.get(2), 20);
    assert_eq!(cur.get(3), 20);
    assert_eq!(cur.get(4), 20);
}

#[test]
fn monotonic_advance() {
    // Stream encodes: [1 x 1, 1 x 2, 1 x 3, 1 x 4]
    let buf = [1, 1, 1, 2, 1, 3, 1, 4];
    let mut cur = RleCursor::new(&buf);

    // Forward only
    for i in 0..4 {
        assert_eq!(cur.get(i), (i + 1) as u8);
    }
}

#[test]
fn non_monotonic_access_forces_rescan() {
    // Stream encodes: [3 x 7, 2 x 9]
    let buf = [3, 7, 2, 9];
    let mut cur = RleCursor::new(&buf);

    // Forward is fine
    assert_eq!(cur.get(0), 7);
    assert_eq!(cur.get(3), 9);

    // Now request earlier index (non-monotonic)
    assert_eq!(cur.get(1), 7);
}

#[test]
fn end_of_stream_behavior() {
    // Stream encodes: [2 x 5]
    let buf = [2, 5];
    let mut cur = RleCursor::new(&buf);

    assert_eq!(cur.get(0), 5);
    assert_eq!(cur.get(1), 5);
    // Out of bounds -> stays at last run value
    assert_eq!(cur.get(2), 0);
}

#[test]
fn empty_stream() {
    let buf: [u8; 0] = [];
    let mut cur = RleCursor::new(&buf);

    // Any access should return 0
    assert_eq!(cur.get(0), 0);
    assert_eq!(cur.get(10), 0);
}

#[test]
fn encode_round_trip() {
    let data: Vec<u8> = vec![0, 0, 0, 7, 7, 1, 0, 0, 255, 255, 255, 255];
    let encoded = rle_encode(data.clone());
    assert_eq!(encoded, vec![3, 0, 2, 7, 1, 1, 2, 0, 4, 255]);
    assert_eq!(rle_decode(&encoded), data);
    let mut cur = RleCursor::new(&encoded);
    for (i, &v) in data.iter().enumerate() {
        assert_eq!(cur.get(i), v);
        assert_eq!(rle_decode_at(&encoded, i), v);
    }
    assert_eq!(cur.get(data.len()), 0);
    assert_eq!(rle_decode_at(&encoded, data.len()), 0);
}

#[test]
fn cursor_follows_two_runs_and_goes_back() {
    // runs (2, 10), (3, 20)
    let buf = [2u8, 10, 3, 20];
    let mut cur = RleCursor::new(&buf);
    assert_eq!(cur.get(0), 10);
    assert_eq!(cur.get(1), 10);
    assert_eq!(cur.get(2), 20);
    assert_eq!(cur.get(3), 20);
    assert_eq!(cur.get(4), 20);
    // index 1 after index 3 is found by reading the stream again
    assert_eq!(cur.get(3), 20);
    assert_eq!(cur.get(1), 10);
    assert_eq!(cur.get(5), 0);
}

#[test]
fn runs_are_capped_at_255() {
    let data = vec![9u8; 600];
    let encoded = rle_encode(data.clone());
    assert_eq!(encoded, vec![255, 9, 255, 9, 90, 9]);
    assert_eq!(rle_decode(&encoded), data);
    let mut cur = RleCursor::new(&encoded);
    assert_eq!(cur.get(0), 9);
    assert_eq!(cur.get(254), 9);
    assert_eq!(cur.get(255), 9);
    assert_eq!(cur.get(599), 9);
    assert_eq!(cur.get(600), 0);
}

#[test]
fn encode_of_nothing_is_nothing() {
    assert_eq!(rle_encode(Vec::new()), Vec::<u8>::new());
    assert_eq!(rle_decode(&[]), Vec::<u8>::new());
}

#[test]
fn empty_runs_and_a_trailing_byte_stand_for_nothing() {
    // a pair with the count 0 holds no sample
    let zero = [0u8, 5];
    let mut cur = RleCursor::new(&zero);
    assert_eq!(cur.get(0), 0);
    assert_eq!(rle_decode_at(&zero, 0), 0);
    assert_eq!(rle_decode(&zero), Vec::<u8>::new());

    let mixed = [0u8, 5, 2, 7, 0, 9, 1, 3, 4];
    assert_eq!(rle_decode(&mixed), vec![7, 7, 3]);
    let mut cur = RleCursor::new(&mixed);
    assert_eq!(cur.get(0), 7);
    assert_eq!(cur.get(1), 7);
    assert_eq!(cur.get(2), 3);
    assert_eq!(cur.get(3), 0);
    assert_eq!(cur.get(0), 7);
    for i in 0..5 {
        assert_eq!(rle_decode_at(&mixed, i), if i < 2 { 7 } else if i == 2 { 3 } else { 0 });
    }
}

#[test]
fn cursor_reads_every_sample_in_any_order() {
    let data: Vec<u8> = (0..500u32).map(|i| ((i / 7) % 5) as u8).collect();
    let encoded = rle_encode(data.clone());
    let mut cur = RleCursor::new(&encoded);
    for i in 0..data.len() {
        assert_eq!(cur.get(i), data[i]);
    }
    for i in (0..data.len()).rev() {
        assert_eq!(cur.get(i), data[i]);
    }
    let mut i = 0usize;
    for _ in 0..data.len() {
        i = (i * 37 + 11) % data.len();
        assert_eq!(cur.get(i), data[i]);
    }
}
