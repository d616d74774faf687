use ab_reflect::primitives::{downgrade_primitives, find_unescaped_brace};

#[test]
fn downgrade_primitives_basic() {
    let input = r"\p{hi}\g\r{A=B}\c";
    let out = downgrade_primitives(input);
    assert_eq!(out, r"\P{hi}\G\R{A=B}\C");
}

#[test]
fn downgrade_skips_escaped() {
    let input = r"\\p{hi}";
    let out = downgrade_primitives(input);
    assert_eq!(out, r"\\p{hi}");
}

#[test]
fn downgrade_preserves_literal_backslash() {
    let input = r"\x";
    let out = downgrade_primitives(input);
    assert_eq!(out, r"\x");
}

#[test]
fn find_unescaped_brace_cases() {
    assert_eq!(find_unescaped_brace("hi}"), Some(2));
    assert_eq!(find_unescaped_brace("hi\\}"), None);
    assert_eq!(find_unescaped_brace("hi\\}foo}"), Some(7));
}
