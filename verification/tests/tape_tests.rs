use ab_reflect::tape::{decode_escapes, encode_runtime_escapes, safe_inject, Tape};

#[test]
fn safe_inject_escapes_special_chars() {
    assert_eq!(safe_inject("a\\b<c>d"), "a\\\\b\\<c\\>d");
}

#[test]
fn decode_basic_escapes() {
    let decoded = decode_escapes("hello\\nworld\\t!").unwrap();
    assert_eq!(decoded, "hello\nworld\t!");
}

#[test]
fn decode_preserve_primitives() {
    let decoded = decode_escapes("\\p{hi}\\g\\r{A=B}\\c").unwrap();
    assert_eq!(decoded, "\\p{hi}\\g\\r{A=B}\\c");
}

#[test]
fn decode_unknown_escape_fails() {
    assert!(decode_escapes("\\x").is_err());
}

#[test]
fn decode_trailing_backslash_fails() {
    assert!(decode_escapes("foo\\").is_err());
}

#[test]
fn encode_runtime_downgrades_and_escapes() {
    let input = r"\p{hi}\g\r{A=B}\c < > \\";
    let encoded = encode_runtime_escapes(input);
    assert_eq!(encoded, r"\P{hi}\G\R{A=B}\C \< \> \\");
}

#[test]
fn tape_replace_range() {
    let mut tape = Tape::new("hello world");
    tape.replace_range(6, 11, "tape");
    assert_eq!(tape.as_str(), "hello tape");
}

#[test]
fn tape_insert_start_and_end() {
    let mut tape = Tape::new("mid");
    tape.insert_start("[");
    tape.insert_end("]");
    assert_eq!(tape.as_str(), "[mid]");
}
