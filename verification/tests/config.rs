use glyphr::parse_char_set;

#[test]
fn test_parse_char_set() {
    let input = "A-Da-d0-3";
    let output = parse_char_set(input);
    let predicted_output = ['0', '1', '2', '3', 'A', 'B', 'C', 'D', 'a', 'b', 'c', 'd'];
    assert_eq!(output, predicted_output);
}

#[test]
fn char_set_of_nothing_is_empty() {
    assert_eq!(parse_char_set(""), Vec::<char>::new());
}

#[test]
fn dash_at_the_edges_stands_for_itself() {
    assert_eq!(parse_char_set("-"), vec!['-']);
    assert_eq!(parse_char_set("a-"), vec!['-', 'a']);
    assert_eq!(parse_char_set("-a"), vec!['-', 'a']);
    assert_eq!(parse_char_set("--"), vec!['-']);
}

#[test]
fn ranges_expand_and_repeats_count_once() {
    assert_eq!(parse_char_set("a-a"), vec!['a']);
    assert_eq!(parse_char_set("c-a"), vec!['a', 'c']);
    assert_eq!(parse_char_set("a-c-e"), vec!['a', 'b', 'c', 'd', 'e']);
    assert_eq!(parse_char_set("baab"), vec!['a', 'b']);
    assert_eq!(parse_char_set("A-B"), vec!['A', 'B']);
    assert_eq!(parse_char_set("x 0-2"), vec![' ', '0', '1', '2', 'x']);
}

#[test]
fn ranges_leave_out_surrogates() {
    assert_eq!(
        parse_char_set("\u{D7FE}-\u{E001}"),
        vec!['\u{D7FE}', '\u{D7FF}', '\u{E000}', '\u{E001}']
    );
}

#[test]
fn char_sets_are_strictly_increasing() {
    for pattern in ["z-aA-Za-z0-9& ", "--a", "é-ëa", "9-0", "0-9a-f0-9"] {
        let chars = parse_char_set(pattern);
        for pair in chars.windows(2) {
            assert!(pair[0] < pair[1]);
        }
    }
    assert_eq!(parse_char_set("0-9a-f0-9").len(), 16);
}
