//! Primitive handlers: block scanning, reflection (`\r`), introspection
//! (`\c`) and the downgrade of active primitives.
use vstd::prelude::*;
use crate::error::{result_view, Error, ErrorView};
use crate::parser::{spec_parse_rule, start_tag, once_tag, end_tag, halt_tag, parse_rule};
use crate::rule::{rules_view, same_key, KeyView, RhsPrefix, Rule, RuleKey, RuleView};
use crate::tape::{
    decode_chars, encode_runtime_chars, spec_decode, spec_encode_runtime, Tape,
};
use crate::text::{
    active_at, byte_len, byte_offset, byte_offset_of, char_index_of, char_pos, chars_of,
    find_unescaped_from, first_unescaped, first_upto, is_active_escape_start, is_char_start,
    lemma_first_upto, lemma_first_upto_at, matches_at, matches_at_exec, push_all, push_range, string_of,
};

verus! {

broadcast use vstd::string::group_string_axioms;

// ---------------------------------------------------------------------------
// Block scanner helper
// ---------------------------------------------------------------------------
/// Byte offset of the first unescaped `}` in the text.
pub fn find_unescaped_brace(text: &str) -> (r: Option<usize>)
    requires
        byte_len(text@) <= usize::MAX,
    ensures
        match first_unescaped(text@, '}') {
            Some(i) => r == Some(byte_offset(text@, i) as usize),
            None => r is None,
        },
{
    let v = chars_of(text);
    assert(v@.skip(0) =~= v@);
    match find_unescaped_from(&v, 0, '}') {
        Some(i) => {
            proof {
                lemma_first_upto(crate::text::unescaped_pred(v@, '}'), v@.len() as int);
            }
            Some(byte_offset_of(&v, i))
        },
        None => None,
    }
}

// ---------------------------------------------------------------------------
// Downgrade of active primitives
// ---------------------------------------------------------------------------
/// If `s` holds `\X{` at `i`, the offset (from `i + 3`) of the first
/// unescaped `}` after it.
pub open spec fn block_close(s: Seq<char>, i: int, x: char) -> Option<int> {
    if matches_at(s, i, seq!['\\', x, '{']) {
        first_unescaped(s.skip(i + 3), '}')
    } else {
        None
    }
}

/// The output of the downgrade scan for the token at `i` (a non-empty
/// position), and how many characters that token spans.
pub open spec fn downgrade_token(s: Seq<char>, i: int) -> (Seq<char>, int) {
    if s[i] != '\\' {
        (seq![s[i]], 1)
    } else if !active_at(s, i) {
        (seq!['\\'], 1)
    } else if block_close(s, i, 'p') is Some {
        let e = block_close(s, i, 'p')->0;
        (seq!['\\', 'P', '{'] + s.subrange(i + 3, i + 3 + e) + seq!['}'], e + 4)
    } else if block_close(s, i, 'r') is Some {
        let e = block_close(s, i, 'r')->0;
        (seq!['\\', 'R', '{'] + s.subrange(i + 3, i + 3 + e) + seq!['}'], e + 4)
    } else if matches_at(s, i, seq!['\\', 'g']) {
        (seq!['\\', 'G'], 2)
    } else if matches_at(s, i, seq!['\\', 'c']) {
        (seq!['\\', 'C'], 2)
    } else {
        (seq!['\\'], 1)
    }
}

pub proof fn lemma_block_close(s: Seq<char>, i: int, x: char)
    requires
        0 <= i,
    ensures
        block_close(s, i, x) matches Some(e) ==> 0 <= e && i + 3 + e < s.len(),
{
    if matches_at(s, i, seq!['\\', x, '{']) {
        lemma_first_upto(crate::text::unescaped_pred(s.skip(i + 3), '}'), s.skip(i + 3).len() as int);
    }
}

pub proof fn lemma_downgrade_token(s: Seq<char>, i: int)
    requires
        0 <= i < s.len(),
    ensures
        1 <= downgrade_token(s, i).1 <= s.len() - i,
{
    lemma_block_close(s, i, 'p');
    lemma_block_close(s, i, 'r');
}

/// The downgrade scan of `s` from index `i`.
pub open spec fn downgrade_from(s: Seq<char>, i: int) -> Seq<char>
    decreases s.len() - i,
{
    if i < 0 || i >= s.len() {
        seq![]
    } else {
        proof {
            lemma_downgrade_token(s, i);
        }
        downgrade_token(s, i).0 + downgrade_from(s, i + downgrade_token(s, i).1)
    }
}

/// `s` with active primitives written lazily: `\p{..}` → `\P{..}`,
/// `\r{..}` → `\R{..}`, `\g` → `\G`, `\c` → `\C`. A backslash that is itself
/// escaped (an odd number of backslashes directly before it) is copied as it
/// is.
pub open spec fn spec_downgrade(s: Seq<char>) -> Seq<char> {
    downgrade_from(s, 0)
}

/// Offset of the closing brace of a `\X{` block at `i`, if there is one.
fn block_close_exec(s: &Vec<char>, i: usize, x: char) -> (r: Option<usize>)
    requires
        i < s.len(),
    ensures
        match r {
            Some(e) => block_close(s@, i as int, x) == Some(e as int),
            None => block_close(s@, i as int, x) is None,
        },
{
    let pat: Vec<char> = vec!['\\', x, '{'];
    assert(pat@ =~= seq!['\\', x, '{']);
    if matches_at_exec(s, i, &pat) {
        find_unescaped_from(s, i + 3, '}')
    } else {
        None
    }
}

/// The downgrade scan on characters.
pub fn downgrade_chars(s: &Vec<char>) -> (out: Vec<char>)
    ensures
        out@ == spec_downgrade(s@),
{
    let mut out: Vec<char> = Vec::new();
    let mut i: usize = 0;
    let pg: Vec<char> = vec!['\\', 'g'];
    let pc: Vec<char> = vec!['\\', 'c'];
    assert(pg@ =~= seq!['\\', 'g']);
    assert(pc@ =~= seq!['\\', 'c']);
    assert(out@ + downgrade_from(s@, 0) =~= downgrade_from(s@, 0));
    while i < s.len()
        invariant
            i <= s.len(),
            pg@ == seq!['\\', 'g'],
            pc@ == seq!['\\', 'c'],
            spec_downgrade(s@) == out@ + downgrade_from(s@, i as int),
        decreases s.len() - i,
    {
        proof {
            lemma_downgrade_token(s@, i as int);
            lemma_block_close(s@, i as int, 'p');
            lemma_block_close(s@, i as int, 'r');
        }
        let ghost before = out@;
        let ghost tok = downgrade_token(s@, i as int);
        let ch = s[i];
        let mut len: usize = 1;
        if ch != '\\' {
            out.push(ch);
        } else if !is_active_escape_start(s, i) {
            out.push('\\');
        } else {
            let bp = block_close_exec(s, i, 'p');
            let br = if bp.is_none() {
                block_close_exec(s, i, 'r')
            } else {
                None
            };
            if let Some(e) = bp {
                out.push('\\');
                out.push('P');
                out.push('{');
                push_range(&mut out, s, i + 3, i + 3 + e);
                out.push('}');
                len = e + 4;
            } else if let Some(e) = br {
                out.push('\\');
                out.push('R');
                out.push('{');
                push_range(&mut out, s, i + 3, i + 3 + e);
                out.push('}');
                len = e + 4;
            } else if matches_at_exec(s, i, &pg) {
                out.push('\\');
                out.push('G');
                len = 2;
            } else if matches_at_exec(s, i, &pc) {
                out.push('\\');
                out.push('C');
                len = 2;
            } else {
                out.push('\\');
            }
        }
        assert(out@ =~= before + tok.0);
        assert(len == tok.1);
        assert(before + (tok.0 + downgrade_from(s@, i + len)) =~= out@ + downgrade_from(
            s@,
            i + len,
        ));
        i += len;
    }
    assert(out@ + downgrade_from(s@, i as int) =~= out@);
    out
}

/// Scan text for active primitive patterns and downgrade them to lazy.
/// Treats `\` followed by `p`/`g`/`r`/`c` as active only when the `\`
/// itself is not escaped: the run of backslashes directly before it has even
/// length.
pub fn downgrade_primitives(text: &str) -> (out: String)
    ensures
        out@ == spec_downgrade(text@),
{
    let s = chars_of(text);
    let out = downgrade_chars(&s);
    string_of(&out)
}

// ---------------------------------------------------------------------------
// Reflection (\r)
// ---------------------------------------------------------------------------
pub open spec fn del_tag() -> Seq<char> {
    seq!['(', 'd', 'e', 'l', ')']
}

/// `rules` without the rules whose key is `key` (order kept).
pub open spec fn remove_key(rules: Seq<RuleView>, key: KeyView) -> Seq<RuleView>
    decreases rules.len(),
{
    if rules.len() == 0 {
        seq![]
    } else {
        let rest = remove_key(rules.drop_last(), key);
        if rules.last().key == key {
            rest
        } else {
            rest.push(rules.last())
        }
    }
}

/// The predicate "the rule at this index of `rules` has key `key`".
pub open spec fn key_pred(rules: Seq<RuleView>, key: KeyView) -> spec_fn(int) -> bool {
    |i: int| 0 <= i < rules.len() && rules[i].key == key
}

/// `rules` with `r` in place of the first rule with the same key, or with
/// `r` appended when there is none.
pub open spec fn upsert(rules: Seq<RuleView>, r: RuleView) -> Seq<RuleView> {
    match first_upto(key_pred(rules, r.key), rules.len() as int) {
        Some(i) => rules.update(i, r),
        None => rules.push(r),
    }
}

/// The rule set after a reflection whose payload (in escaped form) is
/// `payload`: it is decoded, then either `(del)KEY` deletes the rules with
/// that key, or the decoded text is parsed as a rule and upserted.
pub open spec fn spec_reflect(payload: Seq<char>, rules: Seq<RuleView>) -> Result<
    Seq<RuleView>,
    ErrorView,
> {
    match spec_decode(payload) {
        Err(e) => Err(e),
        Ok(d) => if matches_at(d, 0, del_tag()) {
            match spec_parse_rule(d.skip(5) + seq!['='], 0) {
                Err(e) => Err(e),
                Ok(k) => Ok(remove_key(rules, k.key)),
            }
        } else {
            match spec_parse_rule(d, 0) {
                Err(e) => Err(e),
                Ok(r) => Ok(upsert(rules, r)),
            }
        },
    }
}

/// The rule set after the reflection primitive occupying the character
/// range `[start, end)` of `tape` (its payload lies between `\r{` and `}`).
pub open spec fn spec_execute_r(tape: Seq<char>, start: int, end: int, rules: Seq<RuleView>) -> Result<
    Seq<RuleView>,
    ErrorView,
> {
    spec_reflect(tape.subrange(start + 3, end - 1), rules)
}

/// The key written in `text` (a rule without its `=` and RHS).
pub open spec fn spec_parse_rule_key(text: Seq<char>) -> Result<KeyView, ErrorView> {
    match spec_parse_rule(text + seq!['='], 0) {
        Ok(r) => Ok(r.key),
        Err(e) => Err(e),
    }
}

/// Parses the key written in `text`.
pub fn parse_rule_key(text: &Vec<char>) -> (r: Result<RuleKey, Error>)
    ensures
        result_view(r) == spec_parse_rule_key(text@),
{
    let mut line: Vec<char> = Vec::new();
    push_all(&mut line, text);
    line.push('=');
    assert(line@ =~= text@ + seq!['=']);
    let ls = string_of(&line);
    match parse_rule(ls.as_str(), 0) {
        Ok(rule) => Ok(rule.key),
        Err(e) => Err(e),
    }
}

/// Removes from `rules` every rule whose key is `key`.
fn remove_rules_with_key(rules: &mut Vec<Rule>, key: &RuleKey)
    ensures
        rules_view(final(rules)@) == remove_key(rules_view(old(rules)@), key@),
{
    let ghost orig = rules_view(rules@);
    let mut i: usize = 0;
    let mut k: usize = 0;
    assert(orig.len() == rules.len());
    proof {
        assert(orig.take(0) =~= Seq::<RuleView>::empty());
        assert(rules_view(rules@).take(0) =~= remove_key(orig.take(0), key@));
        assert(rules_view(rules@).skip(0) =~= orig.skip(0));
    }
    while i < rules.len()
        invariant
            i <= rules.len(),
            k <= orig.len(),
            orig.len() <= usize::MAX,
            rules.len() - i == orig.len() - k,
            rules_view(rules@).take(i as int) == remove_key(orig.take(k as int), key@),
            rules_view(rules@).skip(i as int) == orig.skip(k as int),
        decreases rules.len() - i,
    {
        let ghost cur = rules_view(rules@);
        assert(cur[i as int] == orig[k as int]) by {
            assert(cur.skip(i as int)[0] == cur[i as int]);
            assert(orig.skip(k as int)[0] == orig[k as int]);
        }
        assert(orig.take(k + 1).drop_last() =~= orig.take(k as int));
        assert(orig.take(k + 1).last() == orig[k as int]);
        if same_key(&rules[i].key, key) {
            rules.remove(i);
            assert(rules_view(rules@) =~= cur.remove(i as int));
            assert(rules_view(rules@).take(i as int) =~= cur.take(i as int));
            assert(cur.skip(i + 1) =~= cur.skip(i as int).skip(1));
            assert(orig.skip(k + 1) =~= orig.skip(k as int).skip(1));
            assert(rules_view(rules@).skip(i as int) =~= orig.skip(k + 1));
        } else {
            assert(cur.take(i + 1) =~= cur.take(i as int).push(cur[i as int]));
            assert(cur.skip(i + 1) =~= cur.skip(i as int).skip(1));
            assert(orig.skip(k + 1) =~= orig.skip(k as int).skip(1));
            assert(cur.skip(i + 1) =~= orig.skip(k + 1));
            i += 1;
        }
        k += 1;
    }
    assert(orig.take(k as int) =~= orig);
    assert(rules_view(rules@).take(i as int) =~= rules_view(rules@));
}

/// Replaces the first rule with the key of `r` by `r`, or appends `r`.
fn upsert_rule(rules: &mut Vec<Rule>, r: Rule)
    requires
        !r.used,
    ensures
        rules_view(final(rules)@) == upsert(rules_view(old(rules)@), r@),
{
    let ghost orig = rules_view(rules@);
    let mut i: usize = 0;
    while i < rules.len()
        invariant
            i <= rules.len(),
            orig == rules_view(rules@),
            rules@ == old(rules)@,
            first_upto(key_pred(orig, r@.key), i as int) is None,
        decreases rules.len() - i,
    {
        assert(orig[i as int] == rules@[i as int]@);
        if same_key(&rules[i].key, &r.key) {
            proof {
                lemma_first_upto(key_pred(orig, r@.key), i as int);
                lemma_first_upto_at(key_pred(orig, r@.key), orig.len() as int, i as int);
            }
            let ghost rv = r@;
            assert(upsert(orig, rv) == orig.update(i as int, rv));
            rules.set(i, r);
            assert(rules_view(rules@) =~= orig.update(i as int, rv));
            return ;
        }
        i += 1;
    }
    rules.push(r);
    assert(rules_view(rules@) =~= orig.push(r@));
}

/// Applies a reflection payload to `rules`: decode it, then delete
/// (`(del)KEY`) or upsert the rule it writes.
pub fn reflect_payload(payload: &Vec<char>, rules: &mut Vec<Rule>) -> (r: Result<(), Error>)
    ensures
        match spec_reflect(payload@, rules_view(old(rules)@)) {
            Ok(rs) => r is Ok && rules_view(final(rules)@) == rs,
            Err(e) => r is Err && r->Err_0@ == e && final(rules)@ == old(rules)@,
        },
{
    let decoded = match decode_chars(payload) {
        Ok(d) => d,
        Err(e) => return Err(e),
    };
    let del: Vec<char> = vec!['(', 'd', 'e', 'l', ')'];
    assert(del@ =~= del_tag());
    if matches_at_exec(&decoded, 0, &del) {
        let mut key_text: Vec<char> = Vec::new();
        push_range(&mut key_text, &decoded, 5, decoded.len());
        assert(key_text@ =~= decoded@.skip(5));
        let key = match parse_rule_key(&key_text) {
            Ok(k) => k,
            Err(e) => return Err(e),
        };
        remove_rules_with_key(rules, &key);
    } else {
        let ds = string_of(&decoded);
        let new_rule = match parse_rule(ds.as_str(), 0) {
            Ok(nr) => nr,
            Err(e) => return Err(e),
        };
        upsert_rule(rules, new_rule);
    }
    Ok(())
}

/// `\r{rule_string}`: decode the payload of the primitive whose bytes are
/// `[start, end)` (the payload is `[start + 3, end - 1)`), then delete
/// (`(del)KEY`) or upsert the rule. The primitive is replaced by nothing.
pub fn execute_r(tape: &Tape, start: usize, end: usize, rules: &mut Vec<Rule>) -> (r: Result<
    String,
    Error,
>)
    requires
        byte_len(tape@) <= usize::MAX,
        start + 4 <= end,
        is_char_start(tape@, start + 3),
        is_char_start(tape@, end - 1),
    ensures
        match spec_reflect(
            tape@.subrange(char_pos(tape@, start + 3), char_pos(tape@, end - 1)),
            rules_view(old(rules)@),
        ) {
            Ok(rs) => r is Ok && r->Ok_0@ == Seq::<char>::empty() && rules_view(final(rules)@)
                == rs,
            Err(e) => r is Err && r->Err_0@ == e && final(rules)@ == old(rules)@,
        },
        r is Err ==> r->Err_0 is Parse,
{
    proof {
        crate::laws::law_reflection_errors_are_parse_errors(
            tape@.subrange(char_pos(tape@, start + 3), char_pos(tape@, end - 1)),
            rules_view(rules@),
        );
    }
    let text = chars_of(tape.as_str());
    let a = char_index_of(&text, start + 3).unwrap();
    let b = char_index_of(&text, end - 1).unwrap();
    proof {
        if b < a {
            crate::text::lemma_byte_offset_mono(text@, b as int, a as int);
        }
    }
    let mut payload: Vec<char> = Vec::new();
    push_range(&mut payload, &text, a, b);
    match reflect_payload(&payload, rules) {
        Ok(_) => Ok(String::new()),
        Err(e) => Err(e),
    }
}

// ---------------------------------------------------------------------------
// Introspection (\c)
// ---------------------------------------------------------------------------
/// The text of an RHS prefix modifier.
pub open spec fn prefix_text(p: RhsPrefix) -> Seq<char> {
    match p {
        RhsPrefix::Start => start_tag(),
        RhsPrefix::End => end_tag(),
        RhsPrefix::Halt => halt_tag(),
        RhsPrefix::Normal => seq![],
    }
}

/// Rule text made safe for the tape: primitives downgraded, `<`/`>` escaped.
pub open spec fn safe_text(s: Seq<char>) -> Seq<char> {
    spec_encode_runtime(spec_downgrade(s))
}

/// `tag` when `b` holds, otherwise nothing.
pub open spec fn tag_if(b: bool, tag: Seq<char>) -> Seq<char> {
    if b {
        tag
    } else {
        seq![]
    }
}

/// The serialized identity of a rule: modifiers around its safe LHS.
pub open spec fn key_text(k: KeyView) -> Seq<char> {
    tag_if(k.has_start, start_tag()) + tag_if(k.has_once, once_tag()) + safe_text(k.lhs) + tag_if(
        k.has_end,
        end_tag(),
    )
}

/// One serialized rule: its key, `=`, RHS prefix and safe RHS.
pub open spec fn rule_line(r: RuleView) -> Seq<char> {
    key_text(r.key) + seq!['='] + prefix_text(r.rhs_prefix) + safe_text(r.rhs)
}

/// The serialized rules, one per line.
pub open spec fn rule_lines(rules: Seq<RuleView>) -> Seq<char>
    decreases rules.len(),
{
    if rules.len() == 0 {
        seq![]
    } else if rules.len() == 1 {
        rule_line(rules[0])
    } else {
        rule_lines(rules.drop_last()) + seq!['\n'] + rule_line(rules.last())
    }
}

/// The introspection capsule: `<` + the serialized rules + `>`.
pub open spec fn spec_serialize(rules: Seq<RuleView>) -> Seq<char> {
    seq!['<'] + rule_lines(rules) + seq!['>']
}

/// Pushes the safe form of the text `s`.
fn push_safe(out: &mut Vec<char>, s: &String)
    ensures
        final(out)@ == old(out)@ + safe_text(s@),
{
    let v = chars_of(s.as_str());
    let d = downgrade_chars(&v);
    let e = encode_runtime_chars(&d);
    push_all(out, &e);
}

/// Pushes `tag` when `b` holds.
fn push_tag_if(out: &mut Vec<char>, b: bool, tag: &Vec<char>)
    ensures
        final(out)@ == old(out)@ + tag_if(b, tag@),
{
    if b {
        push_all(out, tag);
    } else {
        assert(out@ + tag_if(b, tag@) =~= out@);
    }
}

/// Pushes the serialized identity of a rule.
fn push_key_text(out: &mut Vec<char>, key: &RuleKey)
    ensures
        final(out)@ == old(out)@ + key_text(key@),
{
    let ghost before = out@;
    let st = vec!['(', 's', 't', 'a', 'r', 't', ')'];
    let on = vec!['(', 'o', 'n', 'c', 'e', ')'];
    let en = vec!['(', 'e', 'n', 'd', ')'];
    assert(st@ =~= start_tag());
    assert(on@ =~= once_tag());
    assert(en@ =~= end_tag());
    push_tag_if(out, key.has_start, &st);
    let ghost a1 = out@;
    push_tag_if(out, key.has_once, &on);
    let ghost a2 = out@;
    push_safe(out, &key.lhs);
    let ghost a3 = out@;
    push_tag_if(out, key.has_end, &en);
    assert(out@ =~= before + key_text(key@));
}

/// Pushes the text of an RHS prefix.
fn push_prefix(out: &mut Vec<char>, p: RhsPrefix)
    ensures
        final(out)@ == old(out)@ + prefix_text(p),
{
    match p {
        RhsPrefix::Start => {
            let t = vec!['(', 's', 't', 'a', 'r', 't', ')'];
            assert(t@ =~= start_tag());
            push_all(out, &t);
        },
        RhsPrefix::End => {
            let t = vec!['(', 'e', 'n', 'd', ')'];
            assert(t@ =~= end_tag());
            push_all(out, &t);
        },
        RhsPrefix::Halt => {
            let t = vec!['(', 'h', 'a', 'l', 't', ')'];
            assert(t@ =~= halt_tag());
            push_all(out, &t);
        },
        RhsPrefix::Normal => {
            assert(out@ + prefix_text(p) =~= out@);
        },
    }
}

/// Pushes the serialized form of one rule.
fn push_rule_line(out: &mut Vec<char>, rule: &Rule)
    ensures
        final(out)@ == old(out)@ + rule_line(rule@),
{
    let ghost before = out@;
    push_key_text(out, &rule.key);
    out.push('=');
    push_prefix(out, rule.rhs_prefix);
    push_safe(out, &rule.rhs);
    assert(out@ =~= before + rule_line(rule@));
}

/// `\c`: serialize the rules into a safe `<...>` capsule.
pub fn execute_c(rules: &[Rule]) -> (r: Result<String, Error>)
    ensures
        r matches Ok(s) && s@ == spec_serialize(rules_view(rules@)),
{
    let ghost rv = rules_view(rules@);
    let mut out: Vec<char> = vec!['<'];
    let mut i: usize = 0;
    while i < rules.len()
        invariant
            i <= rules.len(),
            rv == rules_view(rules@),
            out@ == seq!['<'] + rule_lines(rv.take(i as int)),
        decreases rules.len() - i,
    {
        let ghost before = out@;
        if i > 0 {
            out.push('\n');
        }
        push_rule_line(&mut out, &rules[i]);
        assert(rv.take(i + 1).drop_last() =~= rv.take(i as int));
        assert(rv.take(i + 1).last() == rules@[i as int]@);
        proof {
            if i == 0 {
                assert(rv.take(1)[0] == rules@[0]@);
            }
        }
        assert(out@ =~= seq!['<'] + rule_lines(rv.take(i + 1)));
        i += 1;
    }
    out.push('>');
    assert(rv.take(i as int) =~= rv);
    assert(out@ =~= spec_serialize(rv));
    Ok(string_of(&out))
}

// ---------------------------------------------------------------------------
// Output (\p)
// ---------------------------------------------------------------------------
/// The text printed by the output primitive occupying `[start, end)` of
/// `tape`: its decoded payload.
pub open spec fn spec_print_payload(tape: Seq<char>, start: int, end: int) -> Result<
    Seq<char>,
    ErrorView,
> {
    spec_decode(tape.subrange(start + 3, end - 1))
}

/// The decoded payload of the output primitive at `[start, end)`, which is
/// what `\p{...}` prints (followed by a newline).
pub fn print_payload(tape: &Vec<char>, start: usize, end: usize) -> (r: Result<Vec<char>, Error>)
    requires
        start + 4 <= end <= tape.len(),
    ensures
        match r {
            Ok(v) => spec_print_payload(tape@, start as int, end as int) == Ok::<
                Seq<char>,
                ErrorView,
            >(v@),
            Err(e) => spec_print_payload(tape@, start as int, end as int) == Err::<
                Seq<char>,
                ErrorView,
            >(e@),
        },
{
    let mut payload: Vec<char> = Vec::new();
    push_range(&mut payload, tape, start + 3, end - 1);
    decode_chars(&payload)
}

} // verus!
