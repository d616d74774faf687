use ab_reflect::error::Error;
use ab_reflect::parser::{parse, parse_rule};
use ab_reflect::primitives::{downgrade_primitives, execute_c, execute_r, find_unescaped_brace};
use ab_reflect::rule::{RhsPrefix, Rule, RuleKey};
use ab_reflect::tape::{
    decode_escapes, encode_runtime_escapes, format_arg, format_g_input, safe_inject, Tape,
};
use ab_reflect::vm::{Request, Vm};

fn parse_message(e: Error) -> (usize, String) {
    match e {
        Error::Parse { line, message, .. } => (line, message),
        other => panic!("not a parse error: {:?}", other),
    }
}

#[test]
fn injection_round_trips_through_decoding() {
    let raw = "a\\p{x}<b>\\\\c";
    let injected = safe_inject(raw);
    assert_eq!(decode_escapes(&injected).unwrap(), raw);
}

#[test]
fn injected_input_is_not_executed() {
    let mut vm = Vm::new(Tape::new("\\g"), vec![], 100, 1 << 20);
    assert!(matches!(vm.run(), Ok(Request::ReadInput)));
    vm.supply_input(Some("\\p{boom}<x>"));
    assert!(matches!(vm.run(), Ok(Request::Halted)));
    assert_eq!(vm.tape.as_str(), "<\\\\p{boom}\\<x\\>>");
}

#[test]
fn print_request_then_halt() {
    let mut vm = Vm::new(Tape::new("\\p{hi\\n}X"), vec![], 100, 1 << 20);
    match vm.run() {
        Ok(Request::Print(text)) => assert_eq!(text, "hi\n"),
        other => panic!("unexpected {:?}", other),
    }
    assert!(matches!(vm.run(), Ok(Request::Halted)));
    assert_eq!(vm.tape.as_str(), "X");
    assert_eq!(vm.step_count(), 1);
    assert_eq!(vm.fuel(), 99);
}

#[test]
fn print_then_fuel_exhausted() {
    let mut vm = Vm::new(Tape::new("\\p{hi}"), vec![], 0, 1 << 20);
    assert!(matches!(vm.run(), Ok(Request::Print(_))));
    assert!(matches!(vm.run(), Err(Error::FuelExceeded { steps: 0 })));
}

#[test]
fn introspection_serializes_rules_safely() {
    let rules = vec![Rule::new(RuleKey::new("A"), "\\p{hi}")];
    assert_eq!(execute_c(&rules).unwrap(), "<A=\\P{hi}>");
}

#[test]
fn introspection_serializes_modifiers_and_escapes_lhs() {
    let rules = vec![
        Rule::new(RuleKey::new("<x>").with_start().with_once().with_end(), "y")
            .with_rhs_prefix(RhsPrefix::Halt),
        Rule::new(RuleKey::new("\\c"), "z").with_rhs_prefix(RhsPrefix::End),
    ];
    assert_eq!(
        execute_c(&rules).unwrap(),
        "<(start)(once)\\<x\\>(end)=(halt)y\n\\C=(end)z>"
    );
}

#[test]
fn introspection_on_tape_is_inert() {
    let rules = vec![Rule::new(RuleKey::new("Q"), "\\g")];
    let mut vm = Vm::new(Tape::new("\\c"), rules, 100, 1 << 20);
    assert!(matches!(vm.run(), Ok(Request::Halted)));
    assert_eq!(vm.tape.as_str(), "<Q=\\G>");
}

#[test]
fn fuel_moves_to_step_counter() {
    let rules = vec![
        Rule::new(RuleKey::new("A"), "B"),
        Rule::new(RuleKey::new("B"), "A"),
    ];
    let mut vm = Vm::new(Tape::new("A"), rules, 7, 1 << 20);
    assert!(matches!(vm.run(), Err(Error::FuelExceeded { steps: 7 })));
    assert_eq!(vm.fuel() + vm.step_count(), 7);
    assert_eq!(vm.tape_limit(), 1 << 20);
}

#[test]
fn successful_run_stays_within_limit() {
    let rules = vec![Rule::new(RuleKey::new("A").with_once(), "BC")];
    let mut vm = Vm::new(Tape::new("A"), rules, 10, 2);
    assert!(matches!(vm.run(), Ok(Request::Halted)));
    assert_eq!(vm.tape.as_str(), "BC");
    assert!(vm.tape.len() <= 2);
}

#[test]
fn tape_overflow_reports_bytes() {
    let rules = vec![Rule::new(RuleKey::new("A"), "éé")];
    let mut vm = Vm::new(Tape::new("A"), rules, 10, 3);
    match vm.run() {
        Err(Error::TapeOverflow { len, limit }) => {
            assert_eq!(len, 4);
            assert_eq!(limit, 3);
        }
        other => panic!("unexpected {:?}", other),
    }
}

#[test]
fn prefix_order_does_not_matter() {
    let a = parse_rule("(start)(once)A=B", 1).unwrap();
    let b = parse_rule("(once)(start)A=B", 1).unwrap();
    assert_eq!(a.key, b.key);
    assert_eq!(a.rhs, b.rhs);
}

#[test]
fn duplicate_start_is_rejected() {
    let (line, message) = parse_message(parse("\n(start)(start)A=B").unwrap_err());
    assert_eq!(line, 2);
    assert_eq!(message, "duplicate (start) prefix");
}

#[test]
fn del_is_not_a_top_level_modifier() {
    let (_, message) = parse_message(parse_rule("(del)A=B", 3).unwrap_err());
    assert_eq!(message, "unknown or misplaced modifier at start of LHS");
}

#[test]
fn rule_text_is_not_trimmed() {
    let rule = parse_rule(" a b = c d ", 1).unwrap();
    assert_eq!(rule.key.lhs, " a b ");
    assert_eq!(rule.rhs, " c d ");
}

#[test]
fn parse_error_messages() {
    let cases = [
        ("AB", "rule has no unescaped '='"),
        ("A(end)(end)=B", "duplicate (end) suffix"),
        ("(once)(once)A=B", "duplicate (once) prefix"),
        ("A=B\\", "trailing backslash in rule text"),
        ("A=\\x", "unknown escape sequence: \\x"),
        ("# @fuel", "pragma missing '=' separator"),
        ("# @speed=3", "unknown pragma key: speed"),
        ("# @fuel=-1", "invalid value for @fuel: expected non-negative integer"),
        ("# @tape-limit=x", "invalid value for @tape-limit: expected non-negative integer"),
    ];
    for (source, expected) in cases {
        let (line, message) = parse_message(parse(source).unwrap_err());
        assert_eq!(line, 1, "{source}");
        assert_eq!(message, expected, "{source}");
    }
}

#[test]
fn pragma_values() {
    let program = parse("  # @fuel = +42 \n# @tape-limit=18446744073709551615\n").unwrap();
    assert_eq!(program.fuel, Some(42));
    assert_eq!(program.tape_limit, Some(usize::MAX));
    assert!(parse("# @fuel=18446744073709551616").is_err());
    assert!(parse("# @fuel=+").is_err());
}

#[test]
fn crlf_lines_and_numbering() {
    let program = parse("A=B\r\nC=D\r\n").unwrap();
    assert_eq!(program.rules.len(), 2);
    assert_eq!(program.rules[0].rhs, "B");
    assert_eq!(program.rules[1].key.lhs, "C");
    let (line, _) = parse_message(parse("A=B\r\n\r\nXY\n").unwrap_err());
    assert_eq!(line, 3);
}

#[test]
fn reflection_upserts_and_deletes() {
    let mut rules = vec![
        Rule::new(RuleKey::new("A"), "1"),
        Rule::new(RuleKey::new("B"), "2"),
    ];
    rules[0].used = true;
    let tape = Tape::new("\\r{A=9}");
    assert_eq!(execute_r(&tape, 0, 7, &mut rules).unwrap(), "");
    assert_eq!(rules.len(), 2);
    assert_eq!(rules[0].rhs, "9");
    assert!(!rules[0].used);
    let tape = Tape::new("\\r{(start)A=3}");
    execute_r(&tape, 0, 14, &mut rules).unwrap();
    assert_eq!(rules.len(), 3);
    assert!(rules[2].key.has_start);
    let tape = Tape::new("\\r{(del)A}");
    execute_r(&tape, 0, 10, &mut rules).unwrap();
    assert_eq!(rules.len(), 2);
    assert_eq!(rules[0].key.lhs, "B");
    assert!(rules[1].key.has_start);
}

#[test]
fn reflection_reports_bad_payload() {
    let mut rules = vec![];
    let tape = Tape::new("\\r{AB}");
    let (line, message) = parse_message(execute_r(&tape, 0, 6, &mut rules).unwrap_err());
    assert_eq!(line, 0);
    assert_eq!(message, "rule has no unescaped '='");
    assert!(rules.is_empty());
    let tape = Tape::new("\\r{A\\q}");
    let (_, message) = parse_message(execute_r(&tape, 0, 7, &mut rules).unwrap_err());
    assert_eq!(message, "unknown escape sequence: \\q");
}

#[test]
fn error_messages() {
    let e = Error::Parse { line: 12, message: "bad".to_string(), column: Some(3) };
    assert_eq!(e.message(), "parse error at line 12, column 3: bad");
    let e = Error::Parse { line: 0, message: "bad".to_string(), column: None };
    assert_eq!(e.message(), "parse error at line 0: bad");
    let e = Error::FuelExceeded { steps: 1005 };
    assert_eq!(e.message(), "fuel exhausted after 1005 execution steps");
    let e = Error::TapeOverflow { len: 70, limit: 64 };
    assert_eq!(e.message(), "tape overflow: 70 bytes exceeds limit of 64 bytes");
    let e: Error = std::io::Error::new(std::io::ErrorKind::Other, "disk").into();
    assert_eq!(e.message(), "I/O error: disk");
}

#[test]
fn injection_formats() {
    assert_eq!(format_arg("x<y"), " <arg:x\\<y>");
    assert_eq!(format_g_input(None), "<EOF>");
    assert_eq!(format_g_input(Some("a\\b")), "<a\\\\b>");
}

#[test]
fn tape_find_len_and_empty() {
    let mut tape = Tape::new("héllo");
    assert_eq!(tape.len(), 6);
    assert_eq!(tape.find("llo"), Some(3));
    assert_eq!(tape.find(""), Some(0));
    assert_eq!(tape.find("z"), None);
    assert!(!tape.is_empty());
    tape.push_str("!");
    assert_eq!(tape.as_str(), "héllo!");
    let empty: Tape = String::new().into();
    assert!(empty.is_empty());
}

#[test]
fn downgrade_respects_backslash_pairs() {
    assert_eq!(downgrade_primitives(r"\\\p{hi}"), r"\\\P{hi}");
    assert_eq!(downgrade_primitives(r"\\\\p{hi}"), r"\\\\p{hi}");
    assert_eq!(downgrade_primitives(r"\\\g\\c"), r"\\\G\\c");
    assert_eq!(downgrade_primitives("a\\r{b\\}c}d"), "a\\R{b\\}c}d");
    assert_eq!(downgrade_primitives("\\p{open"), "\\p{open");
}

#[test]
fn rules_cannot_split_escape_pairs() {
    let rules = vec![Rule::new(RuleKey::new("n"), "X")];
    let mut vm = Vm::new(Tape::new("\\nn"), rules, 10, 1 << 20);
    assert!(matches!(vm.run(), Ok(Request::Halted)));
    assert_eq!(vm.tape.as_str(), "\\nX");
}

#[test]
fn first_matching_rule_wins_and_empty_lhs_matches_at_start() {
    let rules = vec![
        Rule::new(RuleKey::new("").with_once(), "S"),
        Rule::new(RuleKey::new("b"), "c"),
    ];
    let mut vm = Vm::new(Tape::new("ab"), rules, 10, 1 << 20);
    assert!(matches!(vm.run(), Ok(Request::Halted)));
    assert_eq!(vm.tape.as_str(), "Sac");
}

#[test]
fn halt_prefix_stops_immediately() {
    let rules = vec![
        Rule::new(RuleKey::new("A"), "B").with_rhs_prefix(RhsPrefix::Halt),
        Rule::new(RuleKey::new("B"), "C"),
    ];
    let mut vm = Vm::new(Tape::new("A"), rules, 10, 1 << 20);
    assert!(matches!(vm.run(), Ok(Request::Halted)));
    assert_eq!(vm.tape.as_str(), "B");
}

#[test]
fn start_and_end_together_need_whole_tape() {
    let rules = vec![Rule::new(RuleKey::new("ab").with_start().with_end(), "X")];
    let mut vm = Vm::new(Tape::new("abab"), rules.clone(), 10, 1 << 20);
    vm.run().unwrap();
    assert_eq!(vm.tape.as_str(), "abab");
    let mut vm = Vm::new(Tape::new("ab"), rules, 10, 1 << 20);
    vm.run().unwrap();
    assert_eq!(vm.tape.as_str(), "X");
}

#[test]
fn supply_input_without_request_changes_nothing() {
    let mut vm = Vm::new(Tape::new("x"), vec![], 10, 1 << 20);
    vm.supply_input(Some("ignored"));
    assert!(matches!(vm.run(), Ok(Request::Halted)));
    assert_eq!(vm.tape.as_str(), "x");
}

#[test]
fn step_reports_each_mutation() {
    let rules = vec![Rule::new(RuleKey::new("a"), "b")];
    let mut vm = Vm::new(Tape::new("aa"), rules, 10, 1 << 20);
    assert!(vm.step().is_none());
    assert_eq!(vm.tape.as_str(), "ba");
    assert!(vm.step().is_none());
    assert!(matches!(vm.step(), Some(Ok(Request::Halted))));
    assert_eq!(vm.tape.as_str(), "bb");
}

#[test]
fn scan_primitives_generic_patterns() {
    let vm = Vm::new(Tape::new(""), vec![], 1, 1);
    assert_eq!(vm.scan_block_primitive("x\\r{a\\}b}", "\\r{"), Some((1, 9)));
    assert_eq!(Vm::scan_simple_primitive("abc", ""), Some((0, 0)));
    assert_eq!(Vm::scan_simple_primitive("", ""), Some((0, 0)));
    assert_eq!(Vm::scan_simple_primitive("\\\\g", "\\g"), None);
}

#[test]
fn reflection_payload_is_decoded_before_parsing() {
    let mut vm = Vm::new(Tape::new("\\r{A=\\p{hi\\}}"), vec![], 10, 1 << 20);
    assert!(matches!(vm.run(), Ok(Request::Halted)));
    assert_eq!(vm.tape.as_str(), "");
    assert_eq!(vm.rules.len(), 1);
    assert_eq!(vm.rules[0].key.lhs, "A");
    assert_eq!(vm.rules[0].rhs, "\\p{hi}");
}

#[test]
fn reflection_delete_and_empty_rhs_examples() {
    let rules = vec![Rule::new(RuleKey::new("A"), "x"), Rule::new(RuleKey::new("C"), "y")];
    let mut vm = Vm::new(Tape::new("\\r{(del)A=}\\r{C=}CA"), rules, 10, 1 << 20);
    assert!(matches!(vm.run(), Ok(Request::Halted)));
    assert_eq!(vm.rules.len(), 1);
    assert_eq!(vm.rules[0].key.lhs, "C");
    assert_eq!(vm.rules[0].rhs, "");
    assert_eq!(vm.tape.as_str(), "A");
}

#[test]
fn anchored_rule_needs_exact_tape() {
    let rules = vec![Rule::new(RuleKey::new("go").with_start().with_end(), "done")];
    let mut vm = Vm::new(Tape::new("go!"), rules, 10, 1 << 20);
    vm.run().unwrap();
    assert_eq!(vm.tape.as_str(), "go!");
}

#[test]
fn normal_halt_keeps_fuel() {
    let mut vm = Vm::new(Tape::new("zz"), vec![Rule::new(RuleKey::new("y"), "x")], 3, 1 << 20);
    assert!(matches!(vm.run(), Ok(Request::Halted)));
    assert_eq!(vm.fuel(), 3);
    assert_eq!(vm.step_count(), 0);
}

#[test]
fn validation_and_decoding_agree() {
    for text in ["ok", "a\\=b", "x\\", "\\y", "\\p{q}\\G"] {
        let line = format!("A={text}");
        assert_eq!(parse_rule(&line, 1).is_ok(), decode_escapes(text).is_ok(), "{text}");
    }
}

#[test]
fn positions_are_byte_offsets() {
    assert_eq!(ab_reflect::primitives::find_unescaped_brace("é\\}}"), Some(4));
    let mut tape = Tape::new("aéb");
    tape.replace_range(1, 3, "E");
    assert_eq!(tape.as_str(), "aEb");
    assert_eq!(Vm::scan_simple_primitive("é\\g", "\\g"), Some((2, 4)));
    let vm = Vm::new(Tape::new(""), vec![], 1, 1);
    assert_eq!(vm.scan_block_primitive("éé\\p{ü}", "\\p{"), Some((4, 10)));
}

#[test]
fn input_at_end_is_injected_as_eof() {
    let mut vm = Vm::new(Tape::new("a\\gb"), vec![], 100, 1 << 20);
    assert!(matches!(vm.run(), Ok(Request::ReadInput)));
    vm.supply_input(None);
    assert!(matches!(vm.run(), Ok(Request::Halted)));
    assert_eq!(vm.tape.as_str(), "a<EOF>b");
    assert_eq!(format_g_input(None), "<EOF>");
}

#[test]
fn empty_input_text_is_injected_as_empty_capsule() {
    let mut vm = Vm::new(Tape::new("\\g"), vec![], 100, 1 << 20);
    assert!(matches!(vm.run(), Ok(Request::ReadInput)));
    vm.supply_input(Some(""));
    assert!(matches!(vm.run(), Ok(Request::Halted)));
    assert_eq!(vm.tape.as_str(), "<>");
}

#[test]
fn scan_patterns_that_begin_outside_ascii() {
    let vm = Vm::new(Tape::new(""), vec![], 1, 1 << 20);
    assert_eq!(Vm::scan_simple_primitive("\\é é", "é"), Some((4, 6)));
    assert_eq!(Vm::scan_simple_primitive("\\é", "é"), None);
    assert_eq!(vm.scan_block_primitive("\\éx} éy}", "é"), Some((6, 10)));
    assert_eq!(vm.scan_block_primitive("ab}", ""), Some((0, 3)));
    assert_eq!(vm.scan_block_primitive("ab", ""), None);
    assert_eq!(vm.scan_block_primitive("", ""), None);
}

#[test]
fn block_closes_at_first_brace_after_even_backslashes() {
    assert_eq!(find_unescaped_brace("a\\\\}"), Some(3));
    assert_eq!(find_unescaped_brace("a\\\\\\}x}"), Some(6));
    assert_eq!(find_unescaped_brace("é\\}}"), Some(4));
    assert_eq!(find_unescaped_brace("\\}"), None);
}

#[test]
fn introspection_capsule_closes_only_at_its_end() {
    let rules = vec![
        Rule::new(RuleKey::new("a>b"), "<c>\\\\"),
        Rule::new(RuleKey::new("\\>"), "x\\\\>"),
    ];
    let out = execute_c(&rules).unwrap();
    assert_eq!(out, "<a\\>b=\\<c\\>\\\\\n\\>=x\\\\\\>>");
    // A rule whose LHS is the capsule's inner `>` cannot split the capsule.
    let probe = vec![Rule::new(RuleKey::new("b="), "BROKEN")];
    let mut vm = Vm::new(Tape::new(&out), probe, 10, 1 << 20);
    assert!(matches!(vm.run(), Ok(Request::Halted)));
    assert_eq!(vm.tape.as_str(), out);
}

#[test]
fn runtime_encoding_is_idempotent() {
    for text in ["\\p{x}<y>", "a\\", "\\\\g>", "<<\\c", ""] {
        let once = encode_runtime_escapes(text);
        assert_eq!(encode_runtime_escapes(&once), once);
    }
    assert_eq!(encode_runtime_escapes("\\p{x}<y>"), "\\P{x}\\<y\\>");
}

#[test]
fn every_reflection_error_is_a_parse_error() {
    let mut rules = vec![Rule::new(RuleKey::new("K"), "v")];
    for payload in ["\\r{AB}", "\\r{A\\q=B}", "\\r{(once)(once)A=B}", "\\r{(del)(x)}", "\\r{A(end)(end)=B}"] {
        let tape = Tape::new(payload);
        let end = payload.len();
        let err = execute_r(&tape, 0, end, &mut rules).unwrap_err();
        assert!(matches!(err, Error::Parse { .. }), "{payload}");
        assert_eq!(rules.len(), 1);
        assert_eq!(rules[0].rhs, "v");
    }
}

#[test]
fn more_fuel_changes_only_the_fuel_left() {
    let rules = vec![
        Rule::new(RuleKey::new("ab"), "b"),
        Rule::new(RuleKey::new("b"), "c"),
    ];
    let mut small = Vm::new(Tape::new("aab"), rules.clone(), 3, 1 << 20);
    let mut large = Vm::new(Tape::new("aab"), rules.clone(), 1000, 1 << 20);
    assert!(matches!(small.run(), Ok(Request::Halted)));
    assert!(matches!(large.run(), Ok(Request::Halted)));
    assert_eq!(small.tape.as_str(), large.tape.as_str());
    assert_eq!(small.tape.as_str(), "c");
    assert_eq!(small.step_count(), large.step_count());
    assert_eq!(large.fuel(), 1000 - 3);
    let mut short = Vm::new(Tape::new("aab"), rules, 2, 1 << 20);
    assert!(matches!(short.run(), Err(Error::FuelExceeded { steps: 2 })));
}

#[test]
fn serialized_rules_parse_back() {
    let program = parse("(once)(start)A\\=b(end)=(halt)x y\nC=\\\\q\n").unwrap();
    let out = execute_c(&program.rules).unwrap();
    assert_eq!(out, "<(start)(once)A\\=b(end)=(halt)x y\nC=\\\\q>");
    let inner = &out[1..out.len() - 1];
    for (line, original) in inner.split('\n').zip(program.rules.iter()) {
        let back = parse_rule(line, 1).unwrap();
        assert_eq!(back.key, original.key);
        assert_eq!(back.rhs, original.rhs);
        assert_eq!(back.rhs_prefix, original.rhs_prefix);
        assert!(!back.used);
    }
}

#[test]
fn machine_getters_show_tape_and_rules() {
    let rules = vec![Rule::new(RuleKey::new("a"), "b")];
    let mut vm = Vm::new(Tape::new("aa"), rules, 10, 1 << 20);
    assert_eq!(vm.tape().as_str(), "aa");
    assert_eq!(vm.rules().len(), 1);
    assert!(matches!(vm.run(), Ok(Request::Halted)));
    assert_eq!(vm.tape().as_str(), "bb");
    assert_eq!(vm.rules()[0].rhs, "b");
}

#[test]
fn runtime_encoding_escapes_every_angle() {
    assert_eq!(encode_runtime_escapes("a<b>"), "a\\<b\\>");
    assert_eq!(encode_runtime_escapes("\\\\<"), "\\\\\\<");
    assert_eq!(encode_runtime_escapes("\\<"), "\\<");
    assert_eq!(encode_runtime_escapes("\\p\\r"), "\\P\\R");
}

#[test]
fn prefix_errors_exactly_on_repeats_or_parenthesis() {
    for bad in ["(start)(start)A=B", "(once)(start)(once)A=B", "(start)(x)A=B", "(A=B", "(once)(end)=B"] {
        let (line, _) = parse_message(parse_rule(bad, 4).unwrap_err());
        assert_eq!(line, 4, "{bad}");
    }
    for good in ["(start)(once)A=B", "(once)(start)A=B", "(once)A=B", "A(=B", "=B"] {
        assert!(parse_rule(good, 4).is_ok(), "{good}");
    }
}
