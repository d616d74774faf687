//! Source code parser: converts raw text into rules and pragmas.
use vstd::prelude::*;
use crate::error::{parse_err, parse_error, result_view, Error, ErrorView};
use crate::rule::{KeyView, RhsPrefix, Rule, RuleKey, RuleView};
use crate::tape::{
    format_arg, known_escape, spec_format_arg, unknown_escape_message, unknown_escape_text, Tape,
};
use crate::text::{
    chars_of, escaped_before, find_unescaped_from, first_unescaped, first_upto, lemma_first_upto,
    lemma_first_upto_at, matches_at, matches_at_exec, push_range, skip_ws_from,
    string_of, trim, trim_end, trim_start, trim_ws_end,
};

verus! {

broadcast use vstd::string::group_string_axioms;

/// The result of parsing a source file.
#[derive(Clone, Debug, Default)]
pub struct ParsedProgram {
    pub rules: Vec<Rule>,
    pub fuel: Option<u64>,
    pub tape_limit: Option<usize>,
}

/// The mathematical content of a [`ParsedProgram`].
pub struct ProgramView {
    pub rules: Seq<RuleView>,
    pub fuel: Option<u64>,
    pub tape_limit: Option<usize>,
}

impl View for ParsedProgram {
    type V = ProgramView;

    open spec fn view(&self) -> ProgramView {
        ProgramView {
            rules: self.rules@.map_values(|r: Rule| r@),
            fuel: self.fuel,
            tape_limit: self.tape_limit,
        }
    }
}

impl ParsedProgram {
    /// Returns the LHS text of the first rule, which becomes the initial tape.
    pub fn initial_tape(&self) -> (r: Option<&str>)
        ensures
            match r {
                Some(t) => self.rules.len() > 0 && t@ == self.rules@[0].key.lhs@,
                None => self.rules.len() == 0,
            },
    {
        if self.rules.len() > 0 {
            Some(self.rules[0].key.lhs.as_str())
        } else {
            None
        }
    }

    /// The tape a run starts from: the first rule's LHS text (empty without
    /// rules), followed by each argument in the injected form ` <arg:ESCAPED>`.
    pub fn initial_tape_with_args(&self, args: &Vec<String>) -> (t: Tape)
        ensures
            t@ == (if self.rules.len() > 0 {
                self.rules@[0].key.lhs@
            } else {
                Seq::<char>::empty()
            }) + formatted_args(args@.map_values(|a: String| a@)),
    {
        let ghost all = args@.map_values(|a: String| a@);
        let mut tape = match self.initial_tape() {
            Some(text) => Tape::new(text),
            None => Tape::new(""),
        };
        proof {
            reveal_strlit("");
            assert(all.take(0) =~= Seq::<Seq<char>>::empty());
        }
        let ghost base = tape@;
        let mut i: usize = 0;
        while i < args.len()
            invariant
                i <= args.len(),
                all == args@.map_values(|a: String| a@),
                tape@ == base + formatted_args(all.take(i as int)),
            decreases args.len() - i,
        {
            let piece = format_arg(args[i].as_str());
            tape.push_str(piece.as_str());
            proof {
                assert(all.take(i + 1).drop_last() =~= all.take(i as int));
                assert(all.take(i + 1).last() == all[i as int]);
            }
            i += 1;
        }
        assert(all.take(args.len() as int) =~= all);
        tape
    }

    /// The fuel of a run: the command line's value overrides the pragma's;
    /// without either the run is unlimited (`u64::MAX`).
    pub fn resolve_fuel(&self, cli: Option<u64>) -> (f: u64)
        ensures
            f == match cli {
                Some(n) => n,
                None => match self.fuel {
                    Some(n) => n,
                    None => u64::MAX,
                },
            },
    {
        match cli {
            Some(n) => n,
            None => match self.fuel {
                Some(n) => n,
                None => u64::MAX,
            },
        }
    }

    /// The tape limit of a run in bytes: megabytes from the command line,
    /// else from the pragma, else 64, times 2^20, saturating at `usize::MAX`.
    pub fn resolve_tape_limit(&self, cli: Option<usize>) -> (l: usize)
        ensures
            l == ({
                let mb = match cli {
                    Some(n) => n,
                    None => match self.tape_limit {
                        Some(n) => n,
                        None => 64,
                    },
                };
                if mb * 1048576 <= usize::MAX {
                    (mb * 1048576) as usize
                } else {
                    usize::MAX
                }
            }),
    {
        let mb: usize = match cli {
            Some(n) => n,
            None => match self.tape_limit {
                Some(n) => n,
                None => 64,
            },
        };
        match mb.checked_mul(1048576) {
            Some(v) => v,
            None => usize::MAX,
        }
    }
}

/// The injected forms of `args`, one after another.
pub open spec fn formatted_args(args: Seq<Seq<char>>) -> Seq<char>
    decreases args.len(),
{
    if args.len() == 0 {
        Seq::empty()
    } else {
        formatted_args(args.drop_last()) + spec_format_arg(args.last())
    }
}

// ---------------------------------------------------------------------------
// Modifier words
// ---------------------------------------------------------------------------
pub open spec fn start_tag() -> Seq<char> {
    seq!['(', 's', 't', 'a', 'r', 't', ')']
}

pub open spec fn once_tag() -> Seq<char> {
    seq!['(', 'o', 'n', 'c', 'e', ')']
}

pub open spec fn end_tag() -> Seq<char> {
    seq!['(', 'e', 'n', 'd', ')']
}

pub open spec fn halt_tag() -> Seq<char> {
    seq!['(', 'h', 'a', 'l', 't', ')']
}

fn start_tag_exec() -> (v: Vec<char>)
    ensures
        v@ == start_tag(),
{
    let v = vec!['(', 's', 't', 'a', 'r', 't', ')'];
    assert(v@ =~= start_tag());
    v
}

fn once_tag_exec() -> (v: Vec<char>)
    ensures
        v@ == once_tag(),
{
    let v = vec!['(', 'o', 'n', 'c', 'e', ')'];
    assert(v@ =~= once_tag());
    v
}

fn end_tag_exec() -> (v: Vec<char>)
    ensures
        v@ == end_tag(),
{
    let v = vec!['(', 'e', 'n', 'd', ')'];
    assert(v@ =~= end_tag());
    v
}

fn halt_tag_exec() -> (v: Vec<char>)
    ensures
        v@ == halt_tag(),
{
    let v = vec!['(', 'h', 'a', 'l', 't', ')'];
    assert(v@ =~= halt_tag());
    v
}

/// `pat` occurs at `pos` in `s` exactly when it starts `s[pos..]`.
pub proof fn lemma_matches_skip(s: Seq<char>, pos: int, pat: Seq<char>)
    requires
        0 <= pos <= s.len(),
    ensures
        matches_at(s.skip(pos), 0, pat) == matches_at(s, pos, pat),
{
    if pos + pat.len() <= s.len() {
        assert(s.skip(pos).subrange(0, pat.len() as int) =~= s.subrange(pos, pos + pat.len()));
    }
}

// ---------------------------------------------------------------------------
// Rule syntax
// ---------------------------------------------------------------------------
/// Reading the LHS prefixes `(start)` and `(once)` from the front of `s`,
/// given which of them were already seen.
pub open spec fn lhs_prefixes_from(s: Seq<char>, has_start: bool, has_once: bool, line: int) -> Result<
    (bool, bool, Seq<char>),
    ErrorView,
>
    decreases s.len(),
{
    if matches_at(s, 0, start_tag()) {
        if has_start {
            Err(parse_error(line, "duplicate (start) prefix"@))
        } else {
            lhs_prefixes_from(s.skip(7), true, has_once, line)
        }
    } else if matches_at(s, 0, once_tag()) {
        if has_once {
            Err(parse_error(line, "duplicate (once) prefix"@))
        } else {
            lhs_prefixes_from(s.skip(6), has_start, true, line)
        }
    } else if s.len() > 0 && s[0] == '(' {
        Err(parse_error(line, "unknown or misplaced modifier at start of LHS"@))
    } else {
        Ok((has_start, has_once, s))
    }
}

/// `s` ends with an `(end)` whose `(` is not escaped.
pub open spec fn ends_with_end_tag(s: Seq<char>) -> bool {
    s.len() >= 5 && matches_at(s, s.len() - 5, end_tag()) && !escaped_before(s, s.len() - 5)
}

/// Removing an `(end)` suffix from the raw LHS; a doubled suffix is an error.
/// An `(end)` whose `(` is escaped (`\(end)`) is literal text.
pub open spec fn lhs_suffix(s: Seq<char>, line: int) -> Result<(bool, Seq<char>), ErrorView> {
    if ends_with_end_tag(s) {
        let lhs = s.take(s.len() - 5);
        if ends_with_end_tag(lhs) {
            Err(parse_error(line, "duplicate (end) suffix"@))
        } else {
            Ok((true, lhs))
        }
    } else {
        Ok((false, s))
    }
}

/// Removing one RHS prefix `(start)`, `(end)` or `(halt)` from the raw RHS.
pub open spec fn rhs_prefix(s: Seq<char>) -> (RhsPrefix, Seq<char>) {
    if matches_at(s, 0, start_tag()) {
        (RhsPrefix::Start, s.skip(7))
    } else if matches_at(s, 0, end_tag()) {
        (RhsPrefix::End, s.skip(5))
    } else if matches_at(s, 0, halt_tag()) {
        (RhsPrefix::Halt, s.skip(6))
    } else {
        (RhsPrefix::Normal, s)
    }
}

/// Every escape in `s` is in the escape table (an error names the first
/// offending one, or a trailing backslash).
pub open spec fn check_escapes(s: Seq<char>, line: int) -> Result<(), ErrorView>
    decreases s.len(),
{
    if s.len() == 0 {
        Ok(())
    } else if s[0] != '\\' {
        check_escapes(s.drop_first(), line)
    } else if s.len() == 1 {
        Err(parse_error(line, "trailing backslash in rule text"@))
    } else if !known_escape(s[1]) {
        Err(parse_error(line, unknown_escape_message(s[1])))
    } else {
        check_escapes(s.skip(2), line)
    }
}

/// The rule written on one line (or given to `\r{...}`), in escaped form.
pub open spec fn spec_parse_rule(s: Seq<char>, line: int) -> Result<RuleView, ErrorView> {
    match lhs_prefixes_from(s, false, false, line) {
        Err(e) => Err(e),
        Ok((has_start, has_once, rest)) => match first_unescaped(rest, '=') {
            None => Err(parse_error(line, "rule has no unescaped '='"@)),
            Some(i) => match lhs_suffix(rest.take(i), line) {
                Err(e) => Err(e),
                Ok((has_end, lhs)) => {
                    let (prefix, rhs) = rhs_prefix(rest.skip(i + 1));
                    match check_escapes(lhs, line) {
                        Err(e) => Err(e),
                        Ok(_) => match check_escapes(rhs, line) {
                            Err(e) => Err(e),
                            Ok(_) => Ok(
                                RuleView {
                                    key: KeyView { lhs, has_start, has_end, has_once },
                                    rhs,
                                    rhs_prefix: prefix,
                                    used: false,
                                },
                            ),
                        },
                    }
                },
            },
        },
    }
}

/// Reads the LHS prefixes; on success returns the flags and the index where
/// the rest of the line starts.
fn extract_lhs_prefixes(line: &Vec<char>, line_no: usize) -> (r: Result<(bool, bool, usize), Error>)
    ensures
        match r {
            Ok((st, on, pos)) => pos <= line.len() && lhs_prefixes_from(
                line@,
                false,
                false,
                line_no as int,
            ) == Ok::<(bool, bool, Seq<char>), ErrorView>((st, on, line@.skip(pos as int))),
            Err(e) => lhs_prefixes_from(line@, false, false, line_no as int) == Err::<
                (bool, bool, Seq<char>),
                ErrorView,
            >(e@),
        },
{
    let start = start_tag_exec();
    let once = once_tag_exec();
    let mut has_start = false;
    let mut has_once = false;
    let mut pos: usize = 0;
    assert(line@.skip(0) =~= line@);
    loop
        invariant
            pos <= line.len(),
            start@ == start_tag(),
            once@ == once_tag(),
            lhs_prefixes_from(line@, false, false, line_no as int) == lhs_prefixes_from(
                line@.skip(pos as int),
                has_start,
                has_once,
                line_no as int,
            ),
        decreases line.len() - pos,
    {
        let ghost rest = line@.skip(pos as int);
        proof {
            lemma_matches_skip(line@, pos as int, start_tag());
            lemma_matches_skip(line@, pos as int, once_tag());
        }
        if matches_at_exec(line, pos, &start) {
            if has_start {
                return Err(parse_err(line_no, "duplicate (start) prefix"));
            }
            has_start = true;
            assert(rest.skip(7) =~= line@.skip(pos + 7));
            pos += 7;
        } else if matches_at_exec(line, pos, &once) {
            if has_once {
                return Err(parse_err(line_no, "duplicate (once) prefix"));
            }
            has_once = true;
            assert(rest.skip(6) =~= line@.skip(pos + 6));
            pos += 6;
        } else {
            if pos < line.len() && line[pos] == '(' {
                return Err(parse_err(line_no, "unknown or misplaced modifier at start of LHS"));
            }
            return Ok((has_start, has_once, pos));
        }
    }
}

/// Checks that every escape of `s[from..to]` is in the escape table.
fn validate_escapes(s: &Vec<char>, from: usize, to: usize, line_no: usize) -> (r: Result<(), Error>)
    requires
        from <= to <= s.len(),
    ensures
        match r {
            Ok(_) => check_escapes(s@.subrange(from as int, to as int), line_no as int) is Ok,
            Err(e) => check_escapes(s@.subrange(from as int, to as int), line_no as int) == Err::<
                (),
                ErrorView,
            >(e@),
        },
{
    let ghost t = s@.subrange(from as int, to as int);
    let mut i = from;
    while i < to
        invariant
            from <= i <= to <= s.len(),
            t == s@.subrange(from as int, to as int),
            check_escapes(t, line_no as int) == check_escapes(
                s@.subrange(i as int, to as int),
                line_no as int,
            ),
        decreases to - i,
    {
        let ghost rest = s@.subrange(i as int, to as int);
        if s[i] != '\\' {
            assert(rest.drop_first() =~= s@.subrange(i + 1, to as int));
            i += 1;
        } else {
            if i + 1 >= to {
                return Err(parse_err(line_no, "trailing backslash in rule text"));
            }
            let next = s[i + 1];
            assert(rest[1] == next);
            if !(next == '\\' || next == '=' || next == 'n' || next == 't' || next == '{' || next
                == '}' || next == '<' || next == '>' || next == '(' || next == ')' || next == 'p'
                || next == 'P' || next == 'g' || next == 'G' || next == 'r' || next == 'R' || next
                == 'c' || next == 'C') {
                let message = unknown_escape_text(next);
                return Err(Error::Parse { line: line_no, message, column: None });
            }
            assert(rest.skip(2) =~= s@.subrange(i + 2, to as int));
            i += 2;
        }
    }
    Ok(())
}

/// Whether index `k` of `line[from..to]` is escaped when that text is
/// scanned from its start.
fn escaped_in(line: &Vec<char>, from: usize, to: usize, k: usize) -> (b: bool)
    requires
        from <= k <= to <= line.len(),
    ensures
        b == escaped_before(line@.subrange(from as int, to as int), k - from),
{
    let ghost raw = line@.subrange(from as int, to as int);
    let mut esc = false;
    let mut j = from;
    while j < k
        invariant
            from <= j <= k <= to <= line.len(),
            raw == line@.subrange(from as int, to as int),
            esc == escaped_before(raw, j - from),
        decreases k - j,
    {
        assert(raw[j - from] == line@[j as int]);
        esc = !esc && line[j] == '\\';
        j += 1;
    }
    esc
}

/// Whether `line[from..end]` ends with an `(end)` whose `(` is not escaped.
fn ends_with_end_tag_exec(line: &Vec<char>, from: usize, end: usize) -> (b: bool)
    requires
        from <= end <= line.len(),
    ensures
        b == ends_with_end_tag(line@.subrange(from as int, end as int)),
{
    let ghost raw = line@.subrange(from as int, end as int);
    let endt = end_tag_exec();
    if end - from >= 5 {
        assert(raw.subrange(raw.len() - 5, raw.len() as int) =~= line@.subrange(
            end - 5,
            end as int,
        ));
        matches_at_exec(line, end - 5, &endt) && !escaped_in(line, from, end, end - 5)
    } else {
        false
    }
}

/// Removes an `(end)` suffix from `line[from..to]`; returns whether there was
/// one and where the LHS text ends.
fn extract_lhs_suffix(line: &Vec<char>, from: usize, to: usize, line_no: usize) -> (r: Result<
    (bool, usize),
    Error,
>)
    requires
        from <= to <= line.len(),
    ensures
        match r {
            Ok((has_end, end)) => from <= end <= to && lhs_suffix(
                line@.subrange(from as int, to as int),
                line_no as int,
            ) == Ok::<(bool, Seq<char>), ErrorView>(
                (has_end, line@.subrange(from as int, end as int)),
            ),
            Err(e) => lhs_suffix(line@.subrange(from as int, to as int), line_no as int) == Err::<
                (bool, Seq<char>),
                ErrorView,
            >(e@),
        },
{
    let ghost raw = line@.subrange(from as int, to as int);
    if ends_with_end_tag_exec(line, from, to) {
        assert(raw.take(raw.len() - 5) =~= line@.subrange(from as int, to - 5));
        if ends_with_end_tag_exec(line, from, to - 5) {
            return Err(parse_err(line_no, "duplicate (end) suffix"));
        }
        Ok((true, to - 5))
    } else {
        Ok((false, to))
    }
}

/// Removes an RHS prefix from `line[from..]`; returns it and where the RHS
/// text starts.
fn extract_rhs_prefix(line: &Vec<char>, from: usize) -> (r: (RhsPrefix, usize))
    requires
        from <= line.len(),
    ensures
        from <= r.1 <= line.len(),
        rhs_prefix(line@.skip(from as int)) == (r.0, line@.skip(r.1 as int)),
{
    let ghost raw = line@.skip(from as int);
    let startt = start_tag_exec();
    let endt = end_tag_exec();
    let haltt = halt_tag_exec();
    proof {
        lemma_matches_skip(line@, from as int, start_tag());
        lemma_matches_skip(line@, from as int, end_tag());
        lemma_matches_skip(line@, from as int, halt_tag());
    }
    if matches_at_exec(line, from, &startt) {
        assert(raw.skip(7) =~= line@.skip(from + 7));
        (RhsPrefix::Start, from + 7)
    } else if matches_at_exec(line, from, &endt) {
        assert(raw.skip(5) =~= line@.skip(from + 5));
        (RhsPrefix::End, from + 5)
    } else if matches_at_exec(line, from, &haltt) {
        assert(raw.skip(6) =~= line@.skip(from + 6));
        (RhsPrefix::Halt, from + 6)
    } else {
        (RhsPrefix::Normal, from)
    }
}

/// Parses one rule from its text `line`, reporting errors at `line_no`.
fn parse_rule_chars(line: &Vec<char>, line_no: usize) -> (r: Result<Rule, Error>)
    ensures
        result_view(r) == spec_parse_rule(line@, line_no as int),
{
    let (has_start, has_once, pos) = match extract_lhs_prefixes(line, line_no) {
        Ok(t) => t,
        Err(e) => return Err(e),
    };
    let ghost rest = line@.skip(pos as int);
    let eq = match find_unescaped_from(line, pos, '=') {
        Some(i) => i,
        None => return Err(parse_err(line_no, "rule has no unescaped '='")),
    };
    proof {
        lemma_first_upto(crate::text::unescaped_pred(rest, '='), rest.len() as int);
    }
    let eq_abs = pos + eq;
    assert(rest.take(eq as int) =~= line@.subrange(pos as int, eq_abs as int));
    assert(rest.skip(eq + 1) =~= line@.skip(eq_abs + 1));
    let (has_end, lhs_end) = match extract_lhs_suffix(line, pos, eq_abs, line_no) {
        Ok(t) => t,
        Err(e) => return Err(e),
    };
    let (prefix, body) = extract_rhs_prefix(line, eq_abs + 1);
    assert(line@.skip(body as int) =~= line@.subrange(body as int, line.len() as int));
    match validate_escapes(line, pos, lhs_end, line_no) {
        Ok(_) => {},
        Err(e) => return Err(e),
    }
    match validate_escapes(line, body, line.len(), line_no) {
        Ok(_) => {},
        Err(e) => return Err(e),
    }
    let mut lhs_v: Vec<char> = Vec::new();
    push_range(&mut lhs_v, line, pos, lhs_end);
    let mut rhs_v: Vec<char> = Vec::new();
    push_range(&mut rhs_v, line, body, line.len());
    assert(lhs_v@ =~= line@.subrange(pos as int, lhs_end as int));
    assert(rhs_v@ =~= line@.skip(body as int));
    let key = RuleKey { lhs: string_of(&lhs_v), has_start, has_end, has_once };
    Ok(Rule { key, rhs: string_of(&rhs_v), rhs_prefix: prefix, used: false })
}

/// Parses a single rule line. The rule is stored in escaped source
/// representation, matching the tape.
pub fn parse_rule(line: &str, line_no: usize) -> (r: Result<Rule, Error>)
    ensures
        result_view(r) == spec_parse_rule(line@, line_no as int),
{
    let v = chars_of(line);
    parse_rule_chars(&v, line_no)
}

// ---------------------------------------------------------------------------
// Numbers
// ---------------------------------------------------------------------------
/// `c` is an ASCII decimal digit.
pub open spec fn is_digit(c: char) -> bool {
    48 <= (c as u32) && (c as u32) <= 57
}

/// The value of the ASCII digit `c`.
pub open spec fn digit_value(c: char) -> nat {
    ((c as u32) - 48) as nat
}

/// The value of a string of decimal digits.
pub open spec fn digits_value(d: Seq<char>) -> nat
    decreases d.len(),
{
    if d.len() == 0 {
        0
    } else {
        digits_value(d.drop_last()) * 10 + digit_value(d.last())
    }
}

/// Every character of `d` is a decimal digit.
pub open spec fn all_digits(d: Seq<char>) -> bool {
    forall|i: int| 0 <= i < d.len() ==> is_digit(#[trigger] d[i])
}

/// The digits of an unsigned number: a single leading `+` is allowed.
pub open spec fn unsigned_digits(s: Seq<char>) -> Seq<char> {
    if s.len() > 0 && s[0] == '+' {
        s.drop_first()
    } else {
        s
    }
}

/// The `u64` written in `s`: an optional `+` and at least one decimal digit,
/// with a value that fits (what `str::parse::<u64>` accepts).
pub open spec fn spec_parse_u64(s: Seq<char>) -> Option<u64> {
    let d = unsigned_digits(s);
    if d.len() > 0 && all_digits(d) && digits_value(d) <= u64::MAX {
        Some(digits_value(d) as u64)
    } else {
        None
    }
}

proof fn lemma_digits_prefix_le(d: Seq<char>, k: int)
    requires
        0 <= k <= d.len(),
        all_digits(d),
    ensures
        digits_value(d.take(k)) <= digits_value(d),
    decreases d.len(),
{
    if k < d.len() {
        assert(all_digits(d.drop_last()));
        assert(d.drop_last().take(k) =~= d.take(k));
        lemma_digits_prefix_le(d.drop_last(), k);
    } else {
        assert(d.take(k) =~= d);
    }
}

/// Parses `s[from..to]` as a `u64`.
fn parse_u64(s: &Vec<char>, from: usize, to: usize) -> (r: Option<u64>)
    requires
        from <= to <= s.len(),
    ensures
        r == spec_parse_u64(s@.subrange(from as int, to as int)),
{
    let ghost t = s@.subrange(from as int, to as int);
    let mut i = from;
    if i < to && s[i] == '+' {
        i += 1;
    }
    let ghost d = s@.subrange(i as int, to as int);
    assert(d =~= unsigned_digits(t));
    if i == to {
        return None;
    }
    let start = i;
    let mut acc: u64 = 0;
    let mut overflow = false;
    while i < to
        invariant
            start <= i <= to <= s.len(),
            from <= start,
            t == s@.subrange(from as int, to as int),
            d == s@.subrange(start as int, to as int),
            d == unsigned_digits(t),
            all_digits(d.take(i - start)),
            !overflow ==> acc == digits_value(d.take(i - start)),
            overflow ==> digits_value(d.take(i - start)) > u64::MAX,
        decreases to - i,
    {
        let c = s[i];
        let u = c as u32;
        assert(d[i - start] == c);
        if u < 48 || u > 57 {
            assert(!is_digit(d[i - start]));
            assert(!all_digits(d));
            assert(unsigned_digits(t) == d);
            return None;
        }
        let ghost k = i - start;
        assert(d.take(k + 1).drop_last() =~= d.take(k));
        assert(d.take(k + 1).last() == c);
        assert(all_digits(d.take(k + 1))) by {
            assert forall|j: int| 0 <= j < k + 1 implies is_digit(#[trigger] d.take(k + 1)[j]) by {
                if j < k {
                    assert(d.take(k + 1)[j] == d.take(k)[j]);
                }
            }
        }
        proof {
            assert(d.take(k + 1).take(k) =~= d.take(k));
            lemma_digits_prefix_le(d.take(k + 1), k);
        }
        if !overflow {
            match acc.checked_mul(10) {
                Some(m) => match m.checked_add((u - 48) as u64) {
                    Some(n) => {
                        acc = n;
                    },
                    None => {
                        overflow = true;
                    },
                },
                None => {
                    overflow = true;
                },
            }
        }
        i += 1;
    }
    assert(d.take(i - start) =~= d);
    if overflow {
        None
    } else {
        Some(acc)
    }
}

// ---------------------------------------------------------------------------
// Lines and pragmas
// ---------------------------------------------------------------------------
/// The predicate "`s` holds `c` at this index".
pub open spec fn char_pred(s: Seq<char>, c: char) -> spec_fn(int) -> bool {
    |i: int| 0 <= i < s.len() && s[i] == c
}

/// Index of the first `c` in `s`.
pub open spec fn first_char(s: Seq<char>, c: char) -> Option<int> {
    first_upto(char_pred(s, c), s.len() as int)
}

/// Absolute index of the first `c` in `s[from..to]`.
fn find_char(s: &Vec<char>, from: usize, to: usize, c: char) -> (r: Option<usize>)
    requires
        from <= to <= s.len(),
    ensures
        match r {
            Some(i) => from <= i < to && first_char(s@.subrange(from as int, to as int), c) == Some(
                (i - from) as int,
            ),
            None => first_char(s@.subrange(from as int, to as int), c) is None,
        },
{
    let ghost t = s@.subrange(from as int, to as int);
    let mut i = from;
    while i < to
        invariant
            from <= i <= to <= s.len(),
            t == s@.subrange(from as int, to as int),
            first_upto(char_pred(t, c), i - from) is None,
        decreases to - i,
    {
        assert(t[i - from] == s@[i as int]);
        if s[i] == c {
            proof {
                lemma_first_upto(char_pred(t, c), i - from);
                lemma_first_upto_at(char_pred(t, c), t.len() as int, i - from);
            }
            return Some(i);
        }
        i += 1;
    }
    None
}

pub open spec fn fuel_word() -> Seq<char> {
    seq!['f', 'u', 'e', 'l']
}

pub open spec fn tape_limit_word() -> Seq<char> {
    seq!['t', 'a', 'p', 'e', '-', 'l', 'i', 'm', 'i', 't']
}

/// The effect of the pragma text `text` (what follows `# @`) on `prog`.
pub open spec fn spec_pragma(text: Seq<char>, line: int, prog: ProgramView) -> Result<
    ProgramView,
    ErrorView,
> {
    let t = trim_start(text);
    match first_char(t, '=') {
        None => Err(parse_error(line, "pragma missing '=' separator"@)),
        Some(e) => {
            let key = trim_end(trim_start(t.take(e)));
            let value = trim(t.skip(e + 1));
            if key == fuel_word() {
                match spec_parse_u64(value) {
                    None => Err(
                        parse_error(line, "invalid value for @fuel: expected non-negative integer"@),
                    ),
                    Some(n) => Ok(ProgramView { fuel: Some(n), ..prog }),
                }
            } else if key == tape_limit_word() {
                match spec_parse_u64(value) {
                    None => Err(
                        parse_error(
                            line,
                            "invalid value for @tape-limit: expected non-negative integer"@,
                        ),
                    ),
                    Some(n) => Ok(ProgramView { tape_limit: Some(n as usize), ..prog }),
                }
            } else {
                Err(parse_error(line, "unknown pragma key: "@ + key))
            }
        },
    }
}

/// The effect of one source line on `prog`: shebangs, comments and blank
/// lines are skipped, `# @key=value` is a pragma, anything else is a rule.
pub open spec fn spec_parse_line(line: Seq<char>, no: int, prog: ProgramView) -> Result<
    ProgramView,
    ErrorView,
> {
    let t = trim_start(line);
    if matches_at(t, 0, seq!['#', '!']) {
        Ok(prog)
    } else if matches_at(t, 0, seq!['#', ' ', '@']) {
        spec_pragma(t.skip(3), no, prog)
    } else if t.len() > 0 && t[0] == '#' {
        Ok(prog)
    } else if t.len() == 0 {
        Ok(prog)
    } else {
        match spec_parse_rule(line, no) {
            Err(e) => Err(e),
            Ok(r) => Ok(ProgramView { rules: prog.rules.push(r), ..prog }),
        }
    }
}

/// `l` without one trailing carriage return.
pub open spec fn strip_cr(l: Seq<char>) -> Seq<char> {
    if l.len() > 0 && l.last() == '\r' {
        l.drop_last()
    } else {
        l
    }
}

/// The effect of the lines of `s` on `prog`, numbering them from `no`.
/// Lines end at `\n`; a `\r` before the `\n` is dropped; text after the
/// last `\n` is a final line when it is not empty.
pub open spec fn spec_parse_text(s: Seq<char>, no: int, prog: ProgramView) -> Result<
    ProgramView,
    ErrorView,
>
    decreases s.len(),
{
    if s.len() == 0 {
        Ok(prog)
    } else {
        match first_char(s, '\n') {
            None => spec_parse_line(s, no, prog),
            Some(i) => {
                proof {
                    lemma_first_upto(char_pred(s, '\n'), s.len() as int);
                }
                match spec_parse_line(strip_cr(s.take(i)), no, prog) {
                    Err(e) => Err(e),
                    Ok(p) => spec_parse_text(s.skip(i + 1), no + 1, p),
                }
            },
        }
    }
}

/// The program written in `source`.
pub open spec fn spec_parse(source: Seq<char>) -> Result<ProgramView, ErrorView> {
    spec_parse_text(source, 1, ProgramView { rules: seq![], fuel: None, tape_limit: None })
}

/// Whether `s[from..to]` is exactly `word`.
fn range_is(s: &Vec<char>, from: usize, to: usize, word: &Vec<char>) -> (b: bool)
    requires
        from <= to <= s.len(),
    ensures
        b == (s@.subrange(from as int, to as int) == word@),
{
    if to - from != word.len() {
        assert(s@.subrange(from as int, to as int).len() != word@.len());
        return false;
    }
    let b = matches_at_exec(s, from, word);
    assert(b == (s@.subrange(from as int, to as int) =~= word@));
    b
}

/// Applies the pragma whose text (after `# @`) is `line[from..]`.
fn apply_pragma(line: &Vec<char>, from: usize, line_no: usize, prog: &mut ParsedProgram) -> (r:
    Result<(), Error>)
    requires
        from <= line.len(),
    ensures
        match r {
            Ok(_) => spec_pragma(line@.skip(from as int), line_no as int, old(prog)@) == Ok::<
                ProgramView,
                ErrorView,
            >(final(prog)@),
            Err(e) => spec_pragma(line@.skip(from as int), line_no as int, old(prog)@) == Err::<
                ProgramView,
                ErrorView,
            >(e@),
        },
{
    let len = line.len();
    let ghost text = line@.skip(from as int);
    assert(text =~= line@.subrange(from as int, len as int));
    let tws = skip_ws_from(line, from, len);
    let ghost t = trim_start(text);
    assert(t =~= line@.subrange(tws as int, len as int));
    let eq = match find_char(line, tws, len, '=') {
        None => return Err(parse_err(line_no, "pragma missing '=' separator")),
        Some(e) => e,
    };
    let ghost e_rel = eq - tws;
    assert(t.take(e_rel) =~= line@.subrange(tws as int, eq as int));
    let k1 = skip_ws_from(line, tws, eq);
    assert(trim_start(t.take(e_rel)) =~= line@.subrange(k1 as int, eq as int));
    let k2 = trim_ws_end(line, k1, eq);
    let ghost key = line@.subrange(k1 as int, k2 as int);
    assert(trim_end(trim_start(t.take(e_rel))) =~= key);
    assert(t.skip(e_rel + 1) =~= line@.subrange(eq + 1, len as int));
    let v1 = skip_ws_from(line, eq + 1, len);
    assert(trim_start(t.skip(e_rel + 1)) =~= line@.subrange(v1 as int, len as int));
    let v2 = trim_ws_end(line, v1, len);
    assert(trim(t.skip(e_rel + 1)) =~= line@.subrange(v1 as int, v2 as int));
    let fuel_v: Vec<char> = vec!['f', 'u', 'e', 'l'];
    assert(fuel_v@ =~= fuel_word());
    let limit_v: Vec<char> = vec!['t', 'a', 'p', 'e', '-', 'l', 'i', 'm', 'i', 't'];
    assert(limit_v@ =~= tape_limit_word());
    if range_is(line, k1, k2, &fuel_v) {
        match parse_u64(line, v1, v2) {
            Some(n) => {
                prog.fuel = Some(n);
                Ok(())
            },
            None => Err(parse_err(line_no, "invalid value for @fuel: expected non-negative integer")),
        }
    } else if range_is(line, k1, k2, &limit_v) {
        match parse_u64(line, v1, v2) {
            Some(n) => {
                prog.tape_limit = Some(n as usize);
                Ok(())
            },
            None => Err(
                parse_err(line_no, "invalid value for @tape-limit: expected non-negative integer"),
            ),
        }
    } else {
        let mut message = "unknown pragma key: ".to_string();
        crate::text::append_range(&mut message, line, k1, k2);
        Err(Error::Parse { line: line_no, message, column: None })
    }
}

/// Applies one source line to `prog`.
fn parse_line(line: &Vec<char>, line_no: usize, prog: &mut ParsedProgram) -> (r: Result<(), Error>)
    ensures
        match r {
            Ok(_) => spec_parse_line(line@, line_no as int, old(prog)@) == Ok::<
                ProgramView,
                ErrorView,
            >(final(prog)@),
            Err(e) => spec_parse_line(line@, line_no as int, old(prog)@) == Err::<
                ProgramView,
                ErrorView,
            >(e@),
        },
{
    let len = line.len();
    let ws = skip_ws_from(line, 0, len);
    assert(line@.subrange(0, len as int) =~= line@);
    let ghost t = trim_start(line@);
    let shebang: Vec<char> = vec!['#', '!'];
    let pragma: Vec<char> = vec!['#', ' ', '@'];
    proof {
        lemma_matches_skip(line@, ws as int, shebang@);
        lemma_matches_skip(line@, ws as int, pragma@);
        assert(shebang@ =~= seq!['#', '!']);
        assert(pragma@ =~= seq!['#', ' ', '@']);
    }
    if matches_at_exec(line, ws, &shebang) {
        Ok(())
    } else if matches_at_exec(line, ws, &pragma) {
        assert(t.skip(3) =~= line@.skip(ws + 3));
        apply_pragma(line, ws + 3, line_no, prog)
    } else if ws < len && line[ws] == '#' {
        Ok(())
    } else if ws == len {
        Ok(())
    } else {
        match parse_rule_chars(line, line_no) {
            Ok(rule) => {
                let ghost before = prog.rules@;
                prog.rules.push(rule);
                assert(prog.rules@.map_values(|r: Rule| r@) =~= before.map_values(|r: Rule| r@).push(
                    rule@,
                ));
                Ok(())
            },
            Err(e) => Err(e),
        }
    }
}

/// The text of the line of `s` that starts at `start`, and where the next
/// line starts.
fn line_bounds(s: &Vec<char>, start: usize) -> (r: (usize, usize))
    requires
        start < s.len(),
    ensures
        start <= r.0 <= r.1 <= s.len(),
        start < r.1,
        match first_char(s@.skip(start as int), '\n') {
            None => r.1 == s.len() && s@.subrange(start as int, r.0 as int) == s@.skip(
                start as int,
            ),
            Some(i) => r.1 == start + i + 1 && s@.subrange(start as int, r.0 as int) == strip_cr(
                s@.skip(start as int).take(i),
            ),
        },
{
    let ghost rest = s@.skip(start as int);
    let nl = find_char(s, start, s.len(), '\n');
    assert(rest =~= s@.subrange(start as int, s.len() as int));
    match nl {
        None => {
            assert(s@.subrange(start as int, s.len() as int) =~= rest);
            (s.len(), s.len())
        },
        Some(j) => {
            let end = if j > start && s[j - 1] == '\r' {
                j - 1
            } else {
                j
            };
            assert(s@.subrange(start as int, end as int) =~= strip_cr(rest.take(j - start)));
            (end, j + 1)
        },
    }
}

/// Applies the line of `s` that starts at `start` to `prog`; returns where
/// the next line starts.
#[verifier::rlimit(40)]
fn parse_next_line(s: &Vec<char>, start: usize, line_no: usize, prog: &mut ParsedProgram) -> (r:
    Result<usize, Error>)
    requires
        start < s.len(),
    ensures
        match r {
            Ok(next) => start < next <= s.len() && spec_parse_text(
                s@.skip(start as int),
                line_no as int,
                old(prog)@,
            ) == spec_parse_text(s@.skip(next as int), line_no + 1, final(prog)@),
            Err(e) => spec_parse_text(s@.skip(start as int), line_no as int, old(prog)@) == Err::<
                ProgramView,
                ErrorView,
            >(e@),
        },
{
    let ghost rest = s@.skip(start as int);
    let (end, next) = line_bounds(s, start);
    let mut line: Vec<char> = Vec::new();
    push_range(&mut line, s, start, end);
    match parse_line(&line, line_no, prog) {
        Ok(_) => {},
        Err(e) => return Err(e),
    }
    proof {
        match first_char(rest, '\n') {
            None => {
                assert(s@.skip(next as int) =~= Seq::<char>::empty());
            },
            Some(i) => {
                assert(rest.skip(i + 1) =~= s@.skip(next as int));
            },
        }
    }
    Ok(next)
}

/// Parse a complete source file.
pub fn parse(source: &str) -> (r: Result<ParsedProgram, Error>)
    ensures
        result_view(r) == spec_parse(source@),
{
    let s = chars_of(source);
    let mut prog = ParsedProgram { rules: Vec::new(), fuel: None, tape_limit: None };
    assert(prog@.rules =~= Seq::<RuleView>::empty());
    let mut start: usize = 0;
    let mut line_no: usize = 1;
    assert(s@.skip(0) =~= s@);
    while start < s.len()
        invariant
            start <= s.len(),
            1 <= line_no <= start + 1,
            spec_parse(source@) == spec_parse_text(s@.skip(start as int), line_no as int, prog@),
        decreases s.len() - start,
    {
        let next = match parse_next_line(&s, start, line_no, &mut prog) {
            Ok(n) => n,
            Err(e) => return Err(e),
        };
        start = next;
        if start < s.len() {
            line_no += 1;
        } else {
            assert(s@.skip(start as int) =~= Seq::<char>::empty());
        }
    }
    assert(s@.skip(start as int) =~= Seq::<char>::empty());
    Ok(prog)
}

} // verus!
