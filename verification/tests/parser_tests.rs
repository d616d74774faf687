use ab_reflect::parser::parse;
use ab_reflect::rule::RhsPrefix;

#[test]
fn parse_simple_rule() {
    let program = parse("A=B\n").unwrap();
    assert_eq!(program.rules.len(), 1);
    let rule = &program.rules[0];
    assert_eq!(rule.key.lhs, "A");
    assert_eq!(rule.rhs, "B");
    assert_eq!(rule.rhs_prefix, RhsPrefix::Normal);
}

#[test]
fn parse_preserves_whitespace() {
    let program = parse("  A  =  B  \n").unwrap();
    let rule = &program.rules[0];
    assert_eq!(rule.key.lhs, "  A  ");
    assert_eq!(rule.rhs, "  B  ");
}

#[test]
fn parse_unescaped_equal() {
    let program = parse(r"A\=B=C").unwrap();
    let rule = &program.rules[0];
    assert_eq!(rule.key.lhs, r"A\=B");
    assert_eq!(rule.rhs, "C");
}

#[test]
fn parse_modifiers() {
    let program = parse("(start)(once)A(end)=(halt)B").unwrap();
    let rule = &program.rules[0];
    assert!(rule.key.has_start);
    assert!(rule.key.has_once);
    assert!(rule.key.has_end);
    assert_eq!(rule.rhs_prefix, RhsPrefix::Halt);
    assert_eq!(rule.key.lhs, "A");
    assert_eq!(rule.rhs, "B");
}

#[test]
fn parse_rhs_prefixes_mutually_exclusive() {
    // The first RHS prefix consumes its token; the rest stays text.
    let program = parse("A=(start)(end)B").unwrap();
    let rule = &program.rules[0];
    assert_eq!(rule.rhs_prefix, RhsPrefix::Start);
    assert_eq!(rule.rhs, "(end)B");
}

#[test]
fn parse_pragma() {
    let program = parse("# @fuel=1000\n# @tape-limit=64\nA=B\n").unwrap();
    assert_eq!(program.fuel, Some(1000));
    assert_eq!(program.tape_limit, Some(64));
    assert_eq!(program.rules.len(), 1);
}

#[test]
fn parse_skips_comments_and_blanks() {
    let program = parse("# comment\n\nA=B\n#!shebang\n").unwrap();
    assert_eq!(program.rules.len(), 1);
    assert_eq!(program.initial_tape(), Some("A"));
}

#[test]
fn parse_duplicate_prefix_errors() {
    assert!(parse("(once)(once)A=B").is_err());
}

#[test]
fn parse_duplicate_end_suffix_errors() {
    assert!(parse("A(end)(end)=B").is_err());
}

#[test]
fn parse_unknown_escape_errors() {
    assert!(parse("A=\\x").is_err());
}

#[test]
fn parse_no_equal_errors() {
    assert!(parse("AB").is_err());
}

#[test]
fn escaped_end_is_literal_lhs_text() {
    let rule = ab_reflect::parser::parse_rule(r"A\(end)=B", 1).unwrap();
    assert_eq!(rule.key, ab_reflect::rule::RuleKey::new(r"A\(end)"));
    assert!(!rule.key.has_end);
    assert_eq!(rule.key.lhs, r"A\(end)");
    assert_eq!(rule.rhs, "B");
}

#[test]
fn escaped_then_real_end_anchor() {
    let rule = ab_reflect::parser::parse_rule(r"A\(end)(end)=B", 1).unwrap();
    assert!(rule.key.has_end);
    assert_eq!(rule.key.lhs, r"A\(end)");
    let err = ab_reflect::parser::parse_rule("A(end)(end)=B", 3);
    assert!(err.is_err());
    let paired = ab_reflect::parser::parse_rule(r"A\\(end)=B", 1).unwrap();
    assert!(paired.key.has_end);
    assert_eq!(paired.key.lhs, r"A\\");
}

#[test]
fn initial_tape_takes_first_lhs_and_injected_arguments() {
    let program = parse("(start)AB(end)=x\nC=D\n").unwrap();
    let args = vec!["1".to_string(), "a<b>\\".to_string()];
    let tape = program.initial_tape_with_args(&args);
    assert_eq!(tape.as_str(), "AB <arg:1> <arg:a\\<b\\>\\\\>");
    let empty = parse("# nothing\n").unwrap();
    assert_eq!(empty.initial_tape_with_args(&vec![]).as_str(), "");
    assert_eq!(empty.initial_tape_with_args(&vec!["z".to_string()]).as_str(), " <arg:z>");
}

#[test]
fn command_line_limits_override_pragmas() {
    let program = parse("# @fuel=7\n# @tape-limit=2\nA=B\n").unwrap();
    assert_eq!(program.resolve_fuel(None), 7);
    assert_eq!(program.resolve_fuel(Some(3)), 3);
    assert_eq!(program.resolve_tape_limit(None), 2 * 1024 * 1024);
    assert_eq!(program.resolve_tape_limit(Some(1)), 1024 * 1024);
    let plain = parse("A=B\n").unwrap();
    assert_eq!(plain.resolve_fuel(None), u64::MAX);
    assert_eq!(plain.resolve_tape_limit(None), 64 * 1024 * 1024);
    assert_eq!(plain.resolve_tape_limit(Some(usize::MAX)), usize::MAX);
}
