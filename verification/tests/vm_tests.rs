use ab_reflect::error::Error;
use ab_reflect::rule::{RhsPrefix, Rule, RuleKey};
use ab_reflect::tape::Tape;
use ab_reflect::vm::Vm;

#[test]
fn vm_simple_rule_replacement() {
    let tape = Tape::new("hello");
    let rules = vec![Rule::new(RuleKey::new("hello"), "world")];
    let mut vm = Vm::new(tape, rules, 100, 1024 * 1024);
    vm.run().unwrap();
    assert_eq!(vm.tape.as_str(), "world");
}

#[test]
fn vm_start_modifier() {
    let tape = Tape::new("hello world");
    let rules = vec![Rule::new(RuleKey::new("hello").with_start(), "hi")];
    let mut vm = Vm::new(tape, rules, 100, 1024 * 1024);
    vm.run().unwrap();
    assert_eq!(vm.tape.as_str(), "hi world");
}

#[test]
fn vm_end_modifier() {
    let tape = Tape::new("hello world");
    let rules = vec![
        Rule::new(RuleKey::new("world").with_end(), "!"),
        Rule::new(RuleKey::new("hello "), ""),
    ];
    let mut vm = Vm::new(tape, rules, 100, 1024 * 1024);
    vm.run().unwrap();
    assert_eq!(vm.tape.as_str(), "!");
}

#[test]
fn vm_once_modifier() {
    let tape = Tape::new("AA");
    let rules = vec![Rule::new(RuleKey::new("A").with_once(), "B")];
    let mut vm = Vm::new(tape, rules, 100, 1024 * 1024);
    vm.run().unwrap();
    assert_eq!(vm.tape.as_str(), "BA");
}

#[test]
fn vm_rhs_start_prefix() {
    let tape = Tape::new("X");
    let rules = vec![Rule::new(RuleKey::new("X"), "Y").with_rhs_prefix(RhsPrefix::Start)];
    let mut vm = Vm::new(tape, rules, 100, 1024 * 1024);
    vm.run().unwrap();
    assert_eq!(vm.tape.as_str(), "Y");
}

#[test]
fn vm_rhs_end_prefix() {
    let tape = Tape::new("X");
    let rules = vec![Rule::new(RuleKey::new("X"), "Y").with_rhs_prefix(RhsPrefix::End)];
    let mut vm = Vm::new(tape, rules, 100, 1024 * 1024);
    vm.run().unwrap();
    assert_eq!(vm.tape.as_str(), "Y");
}

#[test]
fn vm_fuel_exhaustion() {
    let tape = Tape::new("A");
    let rules = vec![
        Rule::new(RuleKey::new("A"), "B"),
        Rule::new(RuleKey::new("B"), "A"),
    ];
    let mut vm = Vm::new(tape, rules, 5, 1024 * 1024);
    assert!(matches!(vm.run(), Err(Error::FuelExceeded { .. })));
}

#[test]
fn vm_normal_halt_does_not_consume_fuel() {
    let tape = Tape::new("A");
    let rules = vec![Rule::new(RuleKey::new("B"), "C")];
    let mut vm = Vm::new(tape, rules, 0, 1024 * 1024);
    vm.run().unwrap();
    assert_eq!(vm.tape.as_str(), "A");
}

#[test]
fn vm_one_mutation_can_halt_with_one_fuel() {
    let tape = Tape::new("A");
    let rules = vec![Rule::new(RuleKey::new("A").with_once(), "B")];
    let mut vm = Vm::new(tape, rules, 1, 1024 * 1024);
    vm.run().unwrap();
    assert_eq!(vm.tape.as_str(), "B");
}

#[test]
fn vm_tape_overflow() {
    let tape = Tape::new("A");
    let rules = vec![Rule::new(RuleKey::new("A"), "BBBB")];
    let mut vm = Vm::new(tape, rules, 100, 3);
    assert!(matches!(vm.run(), Err(Error::TapeOverflow { .. })));
}

#[test]
fn vm_halt_replacement_checks_tape_limit() {
    let tape = Tape::new("A");
    let rules = vec![Rule::new(RuleKey::new("A"), "BBBB").with_rhs_prefix(RhsPrefix::Halt)];
    let mut vm = Vm::new(tape, rules, 100, 3);
    assert!(matches!(vm.run(), Err(Error::TapeOverflow { .. })));
}

#[test]
fn vm_end_modifier_does_not_split_escape() {
    // The C inside the lazy primitive \C must not be matched by C(end)=Z.
    let tape = Tape::new(r"\C");
    let rules = vec![Rule::new(RuleKey::new("C").with_end(), "Z")];
    let mut vm = Vm::new(tape, rules, 100, 1024 * 1024);
    vm.run().unwrap();
    assert_eq!(vm.tape.as_str(), r"\C");
}

#[test]
fn vm_lazy_primitive_matched_as_whole_token() {
    // A rule whose LHS is the whole lazy primitive \C matches.
    let tape = Tape::new(r"\C");
    let rules = vec![Rule::new(RuleKey::new(r"\C"), "REPLACED")];
    let mut vm = Vm::new(tape, rules, 100, 1024 * 1024);
    vm.run().unwrap();
    assert_eq!(vm.tape.as_str(), "REPLACED");
}

#[test]
fn vm_reflection_then_plain_match() {
    // \r{A=B} adds the rule A=B; the trailing A is a separate token and matches.
    let tape = Tape::new(r"\r{A=B}A");
    let rules = vec![];
    let mut vm = Vm::new(tape, rules, 100, 1024 * 1024);
    vm.run().unwrap();
    assert_eq!(vm.tape.as_str(), "B");
}

#[test]
fn vm_rule_does_not_match_inside_capsule() {
    // A <...> capsule is atomic for rule matching.
    let tape = Tape::new("<GO=hello>");
    let rules = vec![Rule::new(RuleKey::new("GO"), "REPLACED")];
    let mut vm = Vm::new(tape, rules, 100, 1024 * 1024);
    vm.run().unwrap();
    assert_eq!(vm.tape.as_str(), "<GO=hello>");
}

#[test]
fn vm_rule_miss_inside_utf8_capsule_does_not_panic() {
    let tape = Tape::new("<é>");
    let rules = vec![
        Rule::new(RuleKey::new("<é>").with_once(), "<é>"),
        Rule::new(RuleKey::new("é"), "REPLACED"),
    ];
    let mut vm = Vm::new(tape, rules, 100, 1024 * 1024);
    vm.run().unwrap();
    assert_eq!(vm.tape.as_str(), "<é>");
}

#[test]
fn vm_scans_primitive_after_escaped_backslash_pair() {
    let vm = Vm::new(Tape::new(r"\\\p{hi}"), vec![], 100, 1024 * 1024);
    assert_eq!(vm.scan_block_primitive(vm.tape.as_str(), r"\p{"), Some((2, 8)));
}

#[test]
fn vm_does_not_scan_primitive_after_single_escape_backslash() {
    let vm = Vm::new(Tape::new(r"\\p{hi}"), vec![], 100, 1024 * 1024);
    assert_eq!(vm.scan_block_primitive(vm.tape.as_str(), r"\p{"), None);
}

#[test]
fn vm_scans_simple_primitive_after_escaped_backslash_pair() {
    assert_eq!(Vm::scan_simple_primitive(r"\\\c", r"\c"), Some((2, 4)));
    assert_eq!(Vm::scan_simple_primitive(r"\\c", r"\c"), None);
}
