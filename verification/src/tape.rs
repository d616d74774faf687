//! Tape representation, the safe injection protocol and escape coding.
use vstd::prelude::*;
use crate::error::{parse_err, parse_error, Error, ErrorView};
use crate::text::{
    byte_len, byte_offset, byte_offset_of, char_index_of, char_pos, chars_of, first_upto,
    is_char_start, lemma_first_upto, lemma_first_upto_at, matches_at, matches_at_exec, push_all,
    push_range, string_of,
};

verus! {

broadcast use vstd::string::group_string_axioms;

/// The mutable string state of the interpreter.
#[derive(Clone, Debug, Default, PartialEq, Eq)]
pub struct Tape {
    content: String,
}

impl View for Tape {
    type V = Seq<char>;

    closed spec fn view(&self) -> Seq<char> {
        self.content@
    }
}

/// The predicate "`needle` occurs in `hay` at this index".
pub open spec fn occurs_pred(hay: Seq<char>, needle: Seq<char>) -> spec_fn(int) -> bool {
    |i: int| matches_at(hay, i, needle)
}

/// Index of the first occurrence of `needle` in `hay`.
pub open spec fn first_occurrence(hay: Seq<char>, needle: Seq<char>) -> Option<int> {
    first_upto(occurs_pred(hay, needle), hay.len() - needle.len() + 1)
}

/// `s` with the range `[start, end)` replaced by `r`.
pub open spec fn splice(s: Seq<char>, start: int, end: int, r: Seq<char>) -> Seq<char> {
    s.take(start) + r + s.skip(end)
}

/// Index of the first occurrence of `needle` in `hay`.
pub fn find_in(hay: &Vec<char>, needle: &Vec<char>) -> (r: Option<usize>)
    ensures
        match r {
            Some(i) => first_occurrence(hay@, needle@) == Some(i as int),
            None => first_occurrence(hay@, needle@) is None,
        },
{
    if needle.len() > hay.len() {
        return None;
    }
    let last = hay.len() - needle.len();
    let mut i: usize = 0;
    loop
        invariant
            last == hay.len() - needle.len(),
            i <= last,
            first_upto(occurs_pred(hay@, needle@), i as int) is None,
        decreases last - i,
    {
        if matches_at_exec(hay, i, needle) {
            proof {
                lemma_first_upto(occurs_pred(hay@, needle@), i as int);
                lemma_first_upto_at(occurs_pred(hay@, needle@), last + 1, i as int);
            }
            return Some(i);
        }
        assert(!occurs_pred(hay@, needle@)(i as int));
        if i == last {
            return None;
        }
        i += 1;
    }
}

/// `s` with `[start, end)` replaced by the characters of `r`.
pub fn splice_exec(s: &Vec<char>, start: usize, end: usize, r: &Vec<char>) -> (out: Vec<char>)
    requires
        start <= end <= s.len(),
    ensures
        out@ == splice(s@, start as int, end as int, r@),
{
    let mut out: Vec<char> = Vec::new();
    push_range(&mut out, s, 0, start);
    push_all(&mut out, r);
    push_range(&mut out, s, end, s.len());
    assert(out@ =~= splice(s@, start as int, end as int, r@));
    out
}

impl Tape {
    /// A tape holding `content`.
    pub fn new(content: &str) -> (t: Self)
        ensures
            t@ == content@,
    {
        Tape { content: content.to_string() }
    }

    /// The tape's text.
    pub fn as_str(&self) -> (s: &str)
        ensures
            s@ == self@,
    {
        self.content.as_str()
    }

    /// Length of the tape in bytes.
    pub fn len(&self) -> (n: usize)
        ensures
            n == byte_len(self@) as usize,
    {
        self.content.as_str().len()
    }

    /// Whether the tape holds no text.
    pub fn is_empty(&self) -> (b: bool)
        ensures
            b == (self@.len() == 0),
    {
        self.content.as_str().is_empty()
    }

    /// Byte offset of the first occurrence of `needle` in the tape.
    pub fn find(&self, needle: &str) -> (r: Option<usize>)
        requires
            byte_len(self@) <= usize::MAX,
        ensures
            match first_occurrence(self@, needle@) {
                Some(i) => r == Some(byte_offset(self@, i) as usize),
                None => r is None,
            },
    {
        let hay = chars_of(self.content.as_str());
        let pat = chars_of(needle);
        match find_in(&hay, &pat) {
            Some(i) => {
                proof {
                    lemma_first_upto(occurs_pred(hay@, pat@), hay@.len() - pat@.len() + 1);
                }
                Some(byte_offset_of(&hay, i))
            },
            None => None,
        }
    }

    /// Replace the characters `[start, end)` (character positions) with
    /// `replacement`.
    pub(crate) fn splice_chars(&mut self, start: usize, end: usize, replacement: &str)
        requires
            start <= end <= old(self)@.len(),
        ensures
            final(self)@ == splice(old(self)@, start as int, end as int, replacement@),
    {
        let cur = chars_of(self.content.as_str());
        let rep = chars_of(replacement);
        let out = splice_exec(&cur, start, end, &rep);
        self.content = string_of(&out);
    }

    /// Replace the bytes `[start, end)` with `replacement`; both offsets must
    /// fall on character boundaries.
    pub fn replace_range(&mut self, start: usize, end: usize, replacement: &str)
        requires
            byte_len(old(self)@) <= usize::MAX,
            start <= end,
            is_char_start(old(self)@, start as int),
            is_char_start(old(self)@, end as int),
        ensures
            final(self)@ == splice(
                old(self)@,
                char_pos(old(self)@, start as int),
                char_pos(old(self)@, end as int),
                replacement@,
            ),
    {
        let cur = chars_of(self.content.as_str());
        let a = char_index_of(&cur, start).unwrap();
        let b = char_index_of(&cur, end).unwrap();
        proof {
            if b < a {
                crate::text::lemma_byte_offset_mono(cur@, b as int, a as int);
            }
        }
        self.splice_chars(a, b, replacement);
    }

    /// Insert `text` at the start of the tape.
    pub fn insert_start(&mut self, text: &str)
        ensures
            final(self)@ == text@ + old(self)@,
    {
        let mut out = chars_of(text);
        let cur = chars_of(self.content.as_str());
        push_all(&mut out, &cur);
        self.content = string_of(&out);
    }

    /// Insert `text` at the end of the tape.
    pub fn insert_end(&mut self, text: &str)
        ensures
            final(self)@ == old(self)@ + text@,
    {
        let mut out = chars_of(self.content.as_str());
        let add = chars_of(text);
        push_all(&mut out, &add);
        self.content = string_of(&out);
    }

    /// Append text without escaping (used when the text is already safe).
    pub fn push_str(&mut self, text: &str)
        ensures
            final(self)@ == old(self)@ + text@,
    {
        self.insert_end(text);
    }
}

impl From<String> for Tape {
    fn from(s: String) -> (t: Self) {
        Tape { content: s }
    }
}

impl vstd::std_specs::convert::FromSpecImpl<String> for Tape {
    open spec fn obeys_from_spec() -> bool {
        true
    }

    closed spec fn from_spec(s: String) -> Self {
        Tape { content: s }
    }
}

// ---------------------------------------------------------------------------
// Safe Injection Protocol
// ---------------------------------------------------------------------------
/// The injected form of one character: `\`, `<` and `>` get a backslash.
pub open spec fn inject_char(c: char) -> Seq<char> {
    if c == '\\' || c == '<' || c == '>' {
        seq!['\\', c]
    } else {
        seq![c]
    }
}

/// `s` with every `\`, `<` and `>` escaped by a backslash.
pub open spec fn spec_safe_inject(s: Seq<char>) -> Seq<char>
    decreases s.len(),
{
    if s.len() == 0 {
        seq![]
    } else {
        spec_safe_inject(s.drop_last()) + inject_char(s.last())
    }
}

/// Pushes the injected form of every character of `src` onto `out`.
fn inject_into(out: &mut Vec<char>, src: &Vec<char>)
    ensures
        final(out)@ == old(out)@ + spec_safe_inject(src@),
{
    let mut i: usize = 0;
    while i < src.len()
        invariant
            i <= src.len(),
            out@ == old(out)@ + spec_safe_inject(src@.take(i as int)),
        decreases src.len() - i,
    {
        let ch = src[i];
        if ch == '\\' || ch == '<' || ch == '>' {
            out.push('\\');
        }
        out.push(ch);
        assert(src@.take(i + 1).drop_last() =~= src@.take(i as int));
        i += 1;
        assert(out@ =~= old(out)@ + spec_safe_inject(src@.take(i as int)));
    }
    assert(src@.take(src.len() as int) =~= src@);
}

/// Escape a string so it can be safely injected into the Tape without
/// accidentally activating primitives or breaking boundary markers.
///
/// Escapes: `\` → `\\`, `<` → `\<`, `>` → `\>`.
pub fn safe_inject(input: &str) -> (out: String)
    ensures
        out@ == spec_safe_inject(input@),
{
    let src = chars_of(input);
    let mut out: Vec<char> = Vec::new();
    inject_into(&mut out, &src);
    assert(out@ =~= spec_safe_inject(input@));
    string_of(&out)
}

/// The text ` <arg:` that opens an injected command-line argument.
pub open spec fn arg_open() -> Seq<char> {
    seq![' ', '<', 'a', 'r', 'g', ':']
}

/// The tape text for one command-line argument: ` <arg:ESCAPED>`.
pub open spec fn spec_format_arg(arg: Seq<char>) -> Seq<char> {
    arg_open() + spec_safe_inject(arg) + seq!['>']
}

/// The tape text that replaces `\g`: `<ESCAPED>`, or `<EOF>` without input.
pub open spec fn spec_format_g_input(input: Option<Seq<char>>) -> Seq<char> {
    match input {
        Some(t) => seq!['<'] + spec_safe_inject(t) + seq!['>'],
        None => seq!['<', 'E', 'O', 'F', '>'],
    }
}

/// Format a CLI argument for injection: ` <arg:ESCAPED>`.
pub fn format_arg(arg: &str) -> (out: String)
    ensures
        out@ == spec_format_arg(arg@),
{
    let src = chars_of(arg);
    let mut out: Vec<char> = vec![' ', '<', 'a', 'r', 'g', ':'];
    inject_into(&mut out, &src);
    out.push('>');
    assert(out@ =~= spec_format_arg(arg@));
    string_of(&out)
}

/// Format `\g` input for injection: `<ESCAPED>` or `<EOF>`.
pub fn format_g_input(input: Option<&str>) -> (out: String)
    ensures
        out@ == spec_format_g_input(
            match input {
                Some(t) => Some(t@),
                None => None,
            },
        ),
{
    match input {
        Some(text) => {
            let src = chars_of(text);
            let mut out: Vec<char> = vec!['<'];
            inject_into(&mut out, &src);
            out.push('>');
            assert(out@ =~= spec_format_g_input(Some(text@)));
            string_of(&out)
        },
        None => {
            let out: Vec<char> = vec!['<', 'E', 'O', 'F', '>'];
            assert(out@ =~= spec_format_g_input(None));
            string_of(&out)
        },
    }
}

// ---------------------------------------------------------------------------
// Escape decoding
// ---------------------------------------------------------------------------
/// What the escape `\c` decodes to, or `None` for an unknown escape.
/// Primitive escapes (`\p`, `\P`, `\g`, `\G`, `\r`, `\R`, `\c`, `\C`) are kept
/// as the two characters.
pub open spec fn decode_pair(c: char) -> Option<Seq<char>> {
    if c == '\\' || c == '=' || c == '{' || c == '}' || c == '<' || c == '>' || c == '(' || c
        == ')' {
        Some(seq![c])
    } else if c == 'n' {
        Some(seq!['\n'])
    } else if c == 't' {
        Some(seq!['\t'])
    } else if c == 'p' || c == 'P' || c == 'g' || c == 'G' || c == 'r' || c == 'R' || c == 'c'
        || c == 'C' {
        Some(seq!['\\', c])
    } else {
        None
    }
}

/// Whether `\c` is an escape of the escape table.
pub open spec fn known_escape(c: char) -> bool {
    decode_pair(c) is Some
}

/// The message reported for the unknown escape `\c`.
pub open spec fn unknown_escape_message(c: char) -> Seq<char> {
    "unknown escape sequence: \\"@.push(c)
}

/// The message reported when decoded text ends with a lone backslash.
pub open spec fn trailing_input_message() -> Seq<char> {
    "trailing backslash at end of input"@
}

/// Prepends `p` to a successful result.
pub open spec fn prepend(p: Seq<char>, r: Result<Seq<char>, ErrorView>) -> Result<
    Seq<char>,
    ErrorView,
> {
    match r {
        Ok(d) => Ok(p + d),
        Err(e) => Err(e),
    }
}

/// Decoding of escape sequences per the escape table; unknown escapes and a
/// trailing backslash are parse errors (line 0).
pub open spec fn spec_decode(s: Seq<char>) -> Result<Seq<char>, ErrorView>
    decreases s.len(),
{
    if s.len() == 0 {
        Ok(seq![])
    } else if s[0] != '\\' {
        prepend(seq![s[0]], spec_decode(s.drop_first()))
    } else if s.len() == 1 {
        Err(parse_error(0, trailing_input_message()))
    } else {
        match decode_pair(s[1]) {
            None => Err(parse_error(0, unknown_escape_message(s[1]))),
            Some(o) => prepend(o, spec_decode(s.skip(2))),
        }
    }
}

/// The message for the unknown escape `\c`.
pub fn unknown_escape_text(c: char) -> (m: String)
    ensures
        m@ == unknown_escape_message(c),
{
    let mut m = "unknown escape sequence: \\".to_string();
    crate::text::push_char(&mut m, c);
    m
}

/// Decode escape sequences per the escape table, on characters.
pub fn decode_chars(s: &Vec<char>) -> (r: Result<Vec<char>, Error>)
    ensures
        match r {
            Ok(v) => spec_decode(s@) == Ok::<Seq<char>, ErrorView>(v@),
            Err(e) => spec_decode(s@) == Err::<Seq<char>, ErrorView>(e@),
        },
{
    let mut out: Vec<char> = Vec::new();
    let mut i: usize = 0;
    proof {
        assert(s@.skip(0) =~= s@);
        match spec_decode(s@) {
            Ok(d) => {
                assert(out@ + d =~= d);
            },
            Err(_) => {},
        }
    }
    while i < s.len()
        invariant
            i <= s.len(),
            spec_decode(s@) == prepend(out@, spec_decode(s@.skip(i as int))),
        decreases s.len() - i,
    {
        let ghost rest = s@.skip(i as int);
        let ghost before = out@;
        let ch = s[i];
        if ch != '\\' {
            out.push(ch);
            assert(rest.drop_first() =~= s@.skip(i + 1));
            assert(before + seq![ch] =~= out@);
            proof {
                match spec_decode(rest.drop_first()) {
                    Ok(d) => {
                        assert(before + (seq![ch] + d) =~= out@ + d);
                    },
                    Err(_) => {},
                }
            }
            i += 1;
            continue;
        }
        if i + 1 >= s.len() {
            return Err(parse_err(0, "trailing backslash at end of input"));
        }
        let next = s[i + 1];
        assert(rest[1] == next);
        assert(rest.skip(2) =~= s@.skip(i + 2));
        if next == '\\' || next == '=' || next == '{' || next == '}' || next == '<' || next == '>'
            || next == '(' || next == ')' {
            out.push(next);
        } else if next == 'n' {
            out.push('\n');
        } else if next == 't' {
            out.push('\t');
        } else if next == 'p' || next == 'P' || next == 'g' || next == 'G' || next == 'r' || next
            == 'R' || next == 'c' || next == 'C' {
            out.push('\\');
            out.push(next);
        } else {
            let message = unknown_escape_text(next);
            return Err(Error::Parse { line: 0, message, column: None });
        }
        proof {
            let o = decode_pair(next)->0;
            assert(out@ =~= before + o);
            match spec_decode(s@.skip(i + 2)) {
                Ok(d) => {
                    assert(before + (o + d) =~= out@ + d);
                },
                Err(_) => {},
            }
        }
        i += 2;
    }
    proof {
        assert(s@.skip(i as int) =~= Seq::<char>::empty());
        assert(out@ + Seq::<char>::empty() =~= out@);
    }
    Ok(out)
}

/// Decode escape sequences per the escape table.
/// Unknown escapes and a trailing backslash result in a parse error.
pub fn decode_escapes(input: &str) -> (r: Result<String, Error>)
    ensures
        result_view_str(r) == spec_decode(input@),
{
    let s = chars_of(input);
    match decode_chars(&s) {
        Ok(v) => Ok(string_of(&v)),
        Err(e) => Err(e),
    }
}

/// The view of a text result.
pub open spec fn result_view_str(r: Result<String, Error>) -> Result<Seq<char>, ErrorView> {
    match r {
        Ok(s) => Ok(s@),
        Err(e) => Err(e@),
    }
}

// ---------------------------------------------------------------------------
// Runtime escape encoding
// ---------------------------------------------------------------------------
/// The lazy form of a primitive letter (`p` → `P`, `g` → `G`, `r` → `R`,
/// `c` → `C`); other characters are unchanged.
pub open spec fn lazy_letter(c: char) -> char {
    if c == 'p' {
        'P'
    } else if c == 'g' {
        'G'
    } else if c == 'r' {
        'R'
    } else if c == 'c' {
        'C'
    } else {
        c
    }
}

/// Runtime escaping: escape pairs `\X` are kept with active primitive letters
/// made lazy, lone `<` and `>` get a backslash, a trailing `\` is kept.
pub open spec fn spec_encode_runtime(s: Seq<char>) -> Seq<char>
    decreases s.len(),
{
    if s.len() == 0 {
        seq![]
    } else if s[0] != '\\' {
        (if s[0] == '<' || s[0] == '>' {
            seq!['\\', s[0]]
        } else {
            seq![s[0]]
        }) + spec_encode_runtime(s.drop_first())
    } else if s.len() == 1 {
        seq!['\\']
    } else {
        seq!['\\', lazy_letter(s[1])] + spec_encode_runtime(s.skip(2))
    }
}

fn lazy_letter_exec(c: char) -> (r: char)
    ensures
        r == lazy_letter(c),
{
    if c == 'p' {
        'P'
    } else if c == 'g' {
        'G'
    } else if c == 'r' {
        'R'
    } else if c == 'c' {
        'C'
    } else {
        c
    }
}

/// Runtime escaping on characters.
pub fn encode_runtime_chars(s: &Vec<char>) -> (out: Vec<char>)
    ensures
        out@ == spec_encode_runtime(s@),
{
    let mut out: Vec<char> = Vec::new();
    let mut i: usize = 0;
    assert(s@.skip(0) =~= s@);
    assert(out@ + spec_encode_runtime(s@) =~= spec_encode_runtime(s@));
    while i < s.len()
        invariant
            i <= s.len(),
            spec_encode_runtime(s@) == out@ + spec_encode_runtime(s@.skip(i as int)),
        decreases s.len() - i,
    {
        let ghost rest = s@.skip(i as int);
        let ghost before = out@;
        let ch = s[i];
        if ch != '\\' {
            if ch == '<' || ch == '>' {
                out.push('\\');
            }
            out.push(ch);
            assert(rest.drop_first() =~= s@.skip(i + 1));
            assert(before + spec_encode_runtime(rest) =~= out@ + spec_encode_runtime(
                s@.skip(i + 1),
            ));
            i += 1;
        } else if i + 1 >= s.len() {
            out.push('\\');
            assert(before + spec_encode_runtime(rest) =~= out@ + spec_encode_runtime(
                s@.skip(i + 1),
            ));
            i += 1;
        } else {
            let next = s[i + 1];
            out.push('\\');
            out.push(lazy_letter_exec(next));
            assert(rest.skip(2) =~= s@.skip(i + 2));
            assert(before + spec_encode_runtime(rest) =~= out@ + spec_encode_runtime(
                s@.skip(i + 2),
            ));
            i += 2;
        }
    }
    assert(s@.skip(i as int) =~= Seq::<char>::empty());
    assert(out@ + Seq::<char>::empty() =~= out@);
    out
}

/// Encode a string for safe runtime serialization.
///
/// 1. Downgrade active primitives to lazy: `\p`→`\P`, `\g`→`\G`, etc.
/// 2. Escape literal `<`, `>`.
pub fn encode_runtime_escapes(input: &str) -> (out: String)
    ensures
        out@ == spec_encode_runtime(input@),
{
    let s = chars_of(input);
    let out = encode_runtime_chars(&s);
    string_of(&out)
}

} // verus!
