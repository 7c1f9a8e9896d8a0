use glyphr::{rust_char_escape, EscapeError};
use minijinja::value::Value;

fn val(s: &str) -> Value {
    Value::from(s.to_string())
}

#[test]
fn test_normal_char() {
    assert_eq!(rust_char_escape(val("a").as_str()).unwrap(), "a");
    assert_eq!(rust_char_escape(val("Z").as_str()).unwrap(), "Z");
    assert_eq!(rust_char_escape(val("7").as_str()).unwrap(), "7");
}

#[test]
fn test_escape_chars() {
    assert_eq!(rust_char_escape(val("'").as_str()).unwrap(), "\\'");
    assert_eq!(rust_char_escape(val("\\").as_str()).unwrap(), "\\\\");
    assert_eq!(rust_char_escape(val("\n").as_str()).unwrap(), "\\n");
    assert_eq!(rust_char_escape(val("\r").as_str()).unwrap(), "\\r");
    assert_eq!(rust_char_escape(val("\t").as_str()).unwrap(), "\\t");
    assert_eq!(rust_char_escape(val("\0").as_str()).unwrap(), "\\0");
}

#[test]
fn test_control_char() {
    // ASCII 0x01 (Start of Header)
    assert_eq!(rust_char_escape(Value::from("\u{01}").as_str()).unwrap(), "\\u{0001}");
}

#[test]
fn test_unicode_non_escape() {
    assert_eq!(rust_char_escape(Value::from("λ").as_str()).unwrap(), "λ");
    assert_eq!(rust_char_escape(Value::from("🦀").as_str()).unwrap(), "🦀");
}

#[test]
fn test_invalid_length() {
    let err = rust_char_escape(val("").as_str()).unwrap_err();
    assert!(format!("{}", err.message()).contains("expected single character"));

    let err = rust_char_escape(val("ab").as_str()).unwrap_err();
    assert!(format!("{}", err.message()).contains("expected single character"));
}

#[test]
fn test_non_string_input() {
    let err = rust_char_escape(Value::from(42).as_str()).unwrap_err();
    assert!(format!("{}", err.message()).contains("expected string"));
}

#[test]
fn control_codes_are_written_in_four_hex_digits() {
    assert_eq!(rust_char_escape(Some("\u{1f}")).unwrap(), "\\u{001f}");
    assert_eq!(rust_char_escape(Some("\u{7f}")).unwrap(), "\\u{007f}");
    assert_eq!(rust_char_escape(Some("\u{9b}")).unwrap(), "\\u{009b}");
    assert_eq!(rust_char_escape(Some("\u{a0}")).unwrap(), "\u{a0}");
    assert_eq!(rust_char_escape(Some(" ")).unwrap(), " ");
}

#[test]
fn escape_errors() {
    assert_eq!(rust_char_escape(None), Err(EscapeError::NotAString));
    assert_eq!(rust_char_escape(Some("")), Err(EscapeError::NotOneCharacter));
    assert_eq!(rust_char_escape(Some("éé")), Err(EscapeError::NotOneCharacter));
    assert_eq!(EscapeError::NotAString.message(), "expected string");
    assert_eq!(EscapeError::NotOneCharacter.message(), "expected single character");
}
