//! Properties of the library as a whole: what the escaping protocols
//! guarantee, how parsing treats modifiers, how reflection edits the rule
//! set, and how a run accounts for fuel and the tape limit.
use vstd::prelude::*;
use crate::error::ErrorView;
use crate::parser::{check_escapes, once_tag, spec_parse_rule, start_tag, lhs_prefixes_from};
use crate::primitives::{
    spec_execute_r,
    block_close, downgrade_from, downgrade_token, key_pred, key_text, lemma_block_close,
    lemma_downgrade_token, prefix_text, remove_key, rule_line, rule_lines, safe_text,
    spec_downgrade, spec_reflect, spec_serialize, tag_if, upsert,
};
use crate::rule::{KeyView, RhsPrefix, RuleView};
use crate::tape::{
    decode_pair, inject_char, lazy_letter, prepend, spec_decode, spec_encode_runtime, splice,
    spec_format_arg, spec_format_g_input, spec_safe_inject,
};
use crate::text::{
    active_at, backslash_run, escaped_before, first_unescaped, first_upto, is_ws, lemma_first_upto,
    lemma_first_upto_none, matches_at, unescaped_pred,
};
use crate::vm::{
    commit, fuel_error, spec_find_rule, PendingView, RequestView, block_end_at, is_boundary, spec_scan_block, spec_scan_simple, PrimKind, plain_pred, spec_match_rule, token_start_from,
    block_pred, c_prim, g_prim, lemma_step_decreases, p_open, r_open,
    simple_pred, spec_leftmost_primitive, spec_run, spec_step, tape_bytes, vm_wf, StepOut, VmView,
};

verus! {

// ---------------------------------------------------------------------------
// Backslash parity
// ---------------------------------------------------------------------------
/// `p`, `g`, `r`, `c`: the letters of active primitives.
pub open spec fn is_primitive_letter(c: char) -> bool {
    c == 'p' || c == 'g' || c == 'r' || c == 'c'
}

/// No active backslash of `x` is followed by a primitive letter.
pub open spec fn no_active_letter(x: Seq<char>) -> bool {
    forall|p: int|
        0 <= p && p + 1 < x.len() && x[p] == '\\' && #[trigger] active_at(x, p)
            ==> !is_primitive_letter(x[p + 1])
}

/// `x` ends with an even number of backslashes.
pub open spec fn even_tail(x: Seq<char>) -> bool {
    backslash_run(x, x.len() as int) % 2 == 0
}

proof fn lemma_run_prefix(x: Seq<char>, y: Seq<char>, p: int)
    requires
        0 <= p <= x.len(),
    ensures
        backslash_run(x + y, p) == backslash_run(x, p),
    decreases p,
{
    if p > 0 {
        assert((x + y)[p - 1] == x[p - 1]);
        lemma_run_prefix(x, y, p - 1);
    }
}

proof fn lemma_run_shift(x: Seq<char>, y: Seq<char>, q: int)
    requires
        0 <= q <= y.len(),
    ensures
        backslash_run(x + y, x.len() + q) == if backslash_run(y, q) == q {
            q + backslash_run(x, x.len() as int)
        } else {
            backslash_run(y, q) as int
        },
    decreases q,
{
    if q == 0 {
        lemma_run_prefix(x, y, x.len() as int);
    } else {
        assert((x + y)[x.len() + q - 1] == y[q - 1]);
        lemma_run_shift(x, y, q - 1);
        lemma_run_le(y, q - 1);
    }
}

proof fn lemma_run_le(y: Seq<char>, q: int)
    requires
        0 <= q <= y.len(),
    ensures
        backslash_run(y, q) <= q,
    decreases q,
{
    if q > 0 {
        lemma_run_le(y, q - 1);
    }
}

/// Joining after an even number of trailing backslashes keeps parities.
proof fn lemma_concat_even(x: Seq<char>, y: Seq<char>)
    requires
        even_tail(x),
        no_active_letter(x),
        no_active_letter(y),
    ensures
        no_active_letter(x + y),
        even_tail(y) ==> even_tail(x + y),
{
    let z = x + y;
    assert forall|p: int|
        0 <= p && p + 1 < z.len() && z[p] == '\\' && #[trigger] active_at(z, p) implies !is_primitive_letter(
        z[p + 1],
    ) by {
        if p < x.len() {
            lemma_run_prefix(x, y, p);
            if p + 1 < x.len() {
                assert(active_at(x, p));
            } else {
                assert(backslash_run(x, x.len() as int) == 1 + backslash_run(x, p));
            }
        } else {
            let q = p - x.len();
            lemma_run_shift(x, y, q);
            assert(active_at(y, q));
        }
    }
    lemma_run_shift(x, y, y.len() as int);
    assert(z.len() == x.len() + y.len());
}

/// Joining before a character that is neither a backslash nor a primitive
/// letter keeps parities.
proof fn lemma_concat_sep(x: Seq<char>, y: Seq<char>)
    requires
        no_active_letter(x),
        no_active_letter(y),
        y.len() > 0,
        y[0] != '\\',
        !is_primitive_letter(y[0]),
    ensures
        no_active_letter(x + y),
        even_tail(y) ==> even_tail(x + y),
{
    let z = x + y;
    assert forall|p: int|
        0 <= p && p + 1 < z.len() && z[p] == '\\' && #[trigger] active_at(z, p) implies !is_primitive_letter(
        z[p + 1],
    ) by {
        if p < x.len() {
            lemma_run_prefix(x, y, p);
            if p + 1 < x.len() {
                assert(active_at(x, p));
            } else {
                assert(z[p + 1] == y[0]);
            }
        } else {
            let q = p - x.len();
            lemma_run_shift(x, y, q);
            if q > 0 {
                lemma_run_all(y, q);
            }
            assert(active_at(y, q));
        }
    }
    lemma_run_shift(x, y, y.len() as int);
    lemma_run_all(y, y.len() as int);
    assert(z.len() == x.len() + y.len());
}

proof fn lemma_run_all(y: Seq<char>, q: int)
    requires
        1 <= q <= y.len(),
        y[0] != '\\',
    ensures
        backslash_run(y, q) < q,
    decreases q,
{
    if q > 1 && y[q - 1] == '\\' {
        lemma_run_all(y, q - 1);
    }
}

/// Text without backslashes has no active primitive letter and an even tail.
proof fn lemma_plain(t: Seq<char>)
    requires
        forall|i: int| 0 <= i < t.len() ==> t[i] != '\\',
    ensures
        no_active_letter(t),
        even_tail(t),
{
    if t.len() > 0 {
        assert(t[t.len() - 1] != '\\');
    }
}

/// A backslash followed by a non-letter, non-backslash character.
proof fn lemma_escape_pair(c: char)
    requires
        !is_primitive_letter(c),
    ensures
        no_active_letter(seq!['\\', c]),
        c != '\\' ==> even_tail(seq!['\\', c]),
        c == '\\' ==> even_tail(seq!['\\', c]),
{
    reveal_with_fuel(backslash_run, 3);
    let t = seq!['\\', c];
    assert forall|p: int|
        0 <= p && p + 1 < t.len() && t[p] == '\\' && #[trigger] active_at(t, p) implies !is_primitive_letter(
        t[p + 1],
    ) by {
        assert(p == 0);
    }
}

/// Runtime-escaped text never holds an active primitive letter.
proof fn lemma_encode_inert(s: Seq<char>)
    ensures
        no_active_letter(spec_encode_runtime(s)),
    decreases s.len(),
{
    if s.len() == 0 {
    } else if s[0] != '\\' {
        lemma_encode_inert(s.drop_first());
        let tok = if s[0] == '<' || s[0] == '>' {
            seq!['\\', s[0]]
        } else {
            seq![s[0]]
        };
        if s[0] == '<' || s[0] == '>' {
            lemma_escape_pair(s[0]);
        } else {
            lemma_plain(tok);
        }
        lemma_concat_even(tok, spec_encode_runtime(s.drop_first()));
    } else if s.len() == 1 {
    } else {
        lemma_encode_inert(s.skip(2));
        lemma_escape_pair(lazy_letter(s[1]));
        lemma_concat_even(seq!['\\', lazy_letter(s[1])], spec_encode_runtime(s.skip(2)));
    }
}

/// Safely injected text has no active primitive letter and an even tail.
proof fn lemma_inject_inert(s: Seq<char>)
    ensures
        no_active_letter(spec_safe_inject(s)),
        even_tail(spec_safe_inject(s)),
    decreases s.len(),
{
    if s.len() > 0 {
        let c = s.last();
        lemma_inject_inert(s.drop_last());
        if c == '\\' || c == '<' || c == '>' {
            lemma_escape_pair(c);
        } else {
            lemma_plain(inject_char(c));
        }
        lemma_concat_even(spec_safe_inject(s.drop_last()), inject_char(c));
    } else {
        lemma_plain(spec_safe_inject(s));
    }
}

/// Text without an active primitive letter holds no active primitive.
proof fn lemma_no_primitive(x: Seq<char>)
    requires
        no_active_letter(x),
    ensures
        spec_leftmost_primitive(x) is None,
{
    assert forall|p: int| 0 <= p < x.len() + 1 implies !#[trigger] block_pred(x, p_open())(p) by {
        if matches_at(x, p, p_open()) && active_at(x, p) {
            assert(x.subrange(p, p + 3)[1] == x[p + 1]);
        }
    }
    assert forall|p: int| 0 <= p < x.len() + 1 implies !#[trigger] block_pred(x, r_open())(p) by {
        if matches_at(x, p, r_open()) && active_at(x, p) {
            assert(x.subrange(p, p + 3)[1] == x[p + 1]);
        }
    }
    assert forall|p: int| 0 <= p < x.len() + 1 implies !#[trigger] simple_pred(x, g_prim())(p) by {
        if matches_at(x, p, g_prim()) && active_at(x, p) {
            assert(x.subrange(p, p + 2)[1] == x[p + 1]);
        }
    }
    assert forall|p: int| 0 <= p < x.len() + 1 implies !#[trigger] simple_pred(x, c_prim())(p) by {
        if matches_at(x, p, c_prim()) && active_at(x, p) {
            assert(x.subrange(p, p + 2)[1] == x[p + 1]);
        }
    }
    lemma_first_upto_none(block_pred(x, p_open()), x.len() as int + 1);
    lemma_first_upto_none(block_pred(x, r_open()), x.len() as int + 1);
    lemma_first_upto_none(simple_pred(x, g_prim()), x.len() as int + 1);
    lemma_first_upto_none(simple_pred(x, c_prim()), x.len() as int + 1);
}

// ---------------------------------------------------------------------------
// Escapes and backslash parity
// ---------------------------------------------------------------------------
/// A character is escaped exactly when an odd number of backslashes stands
/// directly before it.
pub proof fn law_escaped_iff_odd_backslash_run(s: Seq<char>, i: int)
    requires
        i <= s.len(),
    ensures
        escaped_before(s, i) <==> !active_at(s, i),
    decreases i,
{
    if i > 0 {
        law_escaped_iff_odd_backslash_run(s, i - 1);
        if s[i - 1] == '\\' {
            let r = backslash_run(s, i - 1);
            assert(backslash_run(s, i) == 1 + r);
            assert((1 + r) % 2 == 0 <==> r % 2 != 0);
        }
    }
}

/// The brace that closes a block is the first `}` preceded by an even
/// number of backslashes (none included).
pub proof fn law_block_closes_at_first_unpaired_brace(s: Seq<char>)
    ensures
        match first_unescaped(s, '}') {
            Some(i) => 0 <= i < s.len() && s[i] == '}' && active_at(s, i) && forall|j: int|
                0 <= j < i ==> !(s[j] == '}' && #[trigger] active_at(s, j)),
            None => forall|j: int| 0 <= j < s.len() ==> !(s[j] == '}' && #[trigger] active_at(s, j)),
        },
{
    let p = unescaped_pred(s, '}');
    lemma_first_upto(p, s.len() as int);
    match first_unescaped(s, '}') {
        Some(i) => {
            law_escaped_iff_odd_backslash_run(s, i);
            assert forall|j: int| 0 <= j < i implies !(s[j] == '}' && #[trigger] active_at(s, j)) by {
                assert(!p(j));
                law_escaped_iff_odd_backslash_run(s, j);
            }
        },
        None => {
            assert forall|j: int| 0 <= j < s.len() implies !(s[j] == '}' && #[trigger] active_at(
                s,
                j,
            )) by {
                assert(!p(j));
                law_escaped_iff_odd_backslash_run(s, j);
            }
        },
    }
}

/// The character of the downgrade of `s` at `k` is `s[k]` itself, or the
/// upper-case form of a primitive letter that follows an active backslash.
pub open spec fn kept_or_raised(s: Seq<char>, c: char, k: int) -> bool {
    c == s[k] || (1 <= k && s[k - 1] == '\\' && active_at(s, k - 1) && is_primitive_letter(s[k])
        && c == lazy_letter(s[k]))
}

proof fn lemma_downgrade_from(s: Seq<char>, i: int)
    requires
        0 <= i <= s.len(),
    ensures
        downgrade_from(s, i).len() == s.len() - i,
        forall|k: int| i <= k < s.len() ==> #[trigger] kept_or_raised(s, downgrade_from(s, i)[k - i], k),
    decreases s.len() - i,
{
    if i < s.len() {
        lemma_downgrade_token(s, i);
        lemma_block_close(s, i, 'p');
        lemma_block_close(s, i, 'r');
        let tok = downgrade_token(s, i);
        let n = tok.1;
        lemma_downgrade_from(s, i + n);
        let rest = downgrade_from(s, i + n);
        assert(downgrade_from(s, i) == tok.0 + rest);
        assert(tok.0.len() == n) by {
            if s[i] == '\\' && active_at(s, i) {
                if block_close(s, i, 'p') is Some {
                } else if block_close(s, i, 'r') is Some {
                }
            }
        }
        assert forall|k: int| i <= k < s.len() implies #[trigger] kept_or_raised(
            s,
            downgrade_from(s, i)[k - i],
            k,
        ) by {
            if k >= i + n {
                assert(downgrade_from(s, i)[k - i] == rest[k - (i + n)]);
                assert(kept_or_raised(s, rest[k - (i + n)], k));
            } else if s[i] == '\\' && active_at(s, i) {
                let bp = block_close(s, i, 'p');
                let br = block_close(s, i, 'r');
                if bp is Some || br is Some {
                    let x = if bp is Some { 'p' } else { 'r' };
                    let e = block_close(s, i, x)->0;
                    let t = s.skip(i + 3);
                    lemma_first_upto(unescaped_pred(t, '}'), t.len() as int);
                    assert(t[e] == '}');
                    assert(s[i + 3 + e] == '}');
                    assert(matches_at(s, i, seq!['\\', x, '{']));
                    assert(s[i + 1] == x);
                    assert(s[i + 2] == '{');
                }
            }
        }
    }
}

/// Downgrading keeps the length of the text and changes only primitive
/// letters that follow an active backslash, each to its upper-case form.
pub proof fn law_downgrade_raises_only_primitive_letters(s: Seq<char>)
    ensures
        spec_downgrade(s).len() == s.len(),
        forall|k: int| 0 <= k < s.len() ==> #[trigger] kept_or_raised(s, spec_downgrade(s)[k], k),
{
    lemma_downgrade_from(s, 0);
    assert forall|k: int| 0 <= k < s.len() implies #[trigger] kept_or_raised(
        s,
        spec_downgrade(s)[k],
        k,
    ) by {
        assert(kept_or_raised(s, downgrade_from(s, 0)[k - 0], k));
    }
}

// ---------------------------------------------------------------------------
// Runtime encoding
// ---------------------------------------------------------------------------
proof fn lemma_encode_idempotent(s: Seq<char>)
    ensures
        spec_encode_runtime(spec_encode_runtime(s)) == spec_encode_runtime(s),
    decreases s.len(),
{
    let e = spec_encode_runtime(s);
    if s.len() == 0 {
    } else if s[0] != '\\' {
        let rest = spec_encode_runtime(s.drop_first());
        lemma_encode_idempotent(s.drop_first());
        if s[0] == '<' || s[0] == '>' {
            assert(e == seq!['\\', s[0]] + rest);
            assert(e.skip(2) =~= rest);
            assert(lazy_letter(s[0]) == s[0]);
            assert(spec_encode_runtime(e) =~= seq!['\\', s[0]] + spec_encode_runtime(rest));
        } else {
            assert(e == seq![s[0]] + rest);
            assert(e.drop_first() =~= rest);
            assert(spec_encode_runtime(e) =~= seq![s[0]] + spec_encode_runtime(rest));
        }
    } else if s.len() == 1 {
        assert(e =~= seq!['\\']);
        assert(spec_encode_runtime(e) =~= seq!['\\']);
    } else {
        let rest = spec_encode_runtime(s.skip(2));
        lemma_encode_idempotent(s.skip(2));
        let l = lazy_letter(s[1]);
        assert(e == seq!['\\', l] + rest);
        assert(e.skip(2) =~= rest);
        assert(lazy_letter(l) == l);
        assert(spec_encode_runtime(e) =~= seq!['\\', l] + spec_encode_runtime(rest));
    }
}

/// Every `<` and `>` of `t` is escaped.
pub open spec fn angles_escaped(t: Seq<char>) -> bool {
    forall|p: int| 0 <= p < t.len() && (t[p] == '<' || t[p] == '>') ==> #[trigger] escaped_before(t, p)
}

proof fn lemma_angles_concat(a: Seq<char>, b: Seq<char>)
    requires
        angles_escaped(a),
        !escaped_before(a, a.len() as int),
        angles_escaped(b),
    ensures
        angles_escaped(a + b),
{
    let x = a + b;
    assert forall|p: int| 0 <= p < x.len() && (x[p] == '<' || x[p] == '>') implies #[trigger] escaped_before(
        x,
        p,
    ) by {
        if p < a.len() {
            lemma_escaped_prefix(a, b, p);
            assert(x[p] == a[p]);
        } else {
            lemma_escaped_concat(a, b, p - a.len());
            assert(x[p] == b[p - a.len()]);
        }
    }
}

proof fn lemma_encode_angles(s: Seq<char>)
    ensures
        angles_escaped(spec_encode_runtime(s)),
    decreases s.len(),
{
    if s.len() == 0 {
    } else if s[0] != '\\' {
        let rest = s.drop_first();
        lemma_encode_angles(rest);
        if s[0] == '<' || s[0] == '>' {
            let tok = seq!['\\', s[0]];
            assert(!escaped_before(tok, 0));
            assert(escaped_before(tok, 1));
            assert(!escaped_before(tok, 2));
            lemma_angles_concat(tok, spec_encode_runtime(rest));
        } else {
            let tok = seq![s[0]];
            assert(!escaped_before(tok, 0));
            assert(!escaped_before(tok, 1));
            lemma_angles_concat(tok, spec_encode_runtime(rest));
        }
    } else if s.len() == 1 {
        assert(spec_encode_runtime(s) =~= seq!['\\']);
    } else {
        let rest = s.skip(2);
        lemma_encode_angles(rest);
        let tok = seq!['\\', lazy_letter(s[1])];
        assert(!escaped_before(tok, 0));
        assert(escaped_before(tok, 1));
        assert(!escaped_before(tok, 2));
        lemma_angles_concat(tok, spec_encode_runtime(rest));
    }
}

/// Runtime encoding leaves no active backslash before a primitive letter
/// (so no active primitive) and no unescaped `<` or `>`, and encoding its
/// output again changes nothing.
pub proof fn law_runtime_encoding_is_inert_and_idempotent(s: Seq<char>)
    ensures
        no_active_letter(spec_encode_runtime(s)),
        angles_escaped(spec_encode_runtime(s)),
        spec_leftmost_primitive(spec_encode_runtime(s)) is None,
        spec_encode_runtime(spec_encode_runtime(s)) == spec_encode_runtime(s),
{
    lemma_encode_inert(s);
    lemma_no_primitive(spec_encode_runtime(s));
    lemma_encode_idempotent(s);
    lemma_encode_angles(s);
}

// ---------------------------------------------------------------------------
// Safe injection and introspection are inert
// ---------------------------------------------------------------------------
/// Text escaped by the safe injection protocol holds no active primitive:
/// injected data can never be executed.
pub proof fn law_injected_text_is_inert(s: Seq<char>)
    ensures
        spec_leftmost_primitive(spec_safe_inject(s)) is None,
{
    lemma_inject_inert(s);
    lemma_no_primitive(spec_safe_inject(s));
}

/// A command-line argument injected as ` <arg:...>` holds no active primitive.
pub proof fn law_injected_argument_is_inert(arg: Seq<char>)
    ensures
        spec_leftmost_primitive(spec_format_arg(arg)) is None,
{
    let open = seq![' ', '<', 'a', 'r', 'g', ':'];
    lemma_inject_inert(arg);
    lemma_plain(open);
    lemma_plain(seq!['>']);
    lemma_concat_even(open, spec_safe_inject(arg));
    lemma_concat_even(open + spec_safe_inject(arg), seq!['>']);
    assert(spec_format_arg(arg) =~= open + spec_safe_inject(arg) + seq!['>']);
    lemma_no_primitive(spec_format_arg(arg));
}

/// The text that replaces `\g` holds no active primitive.
pub proof fn law_injected_input_is_inert(input: Option<Seq<char>>)
    ensures
        spec_leftmost_primitive(spec_format_g_input(input)) is None,
{
    match input {
        Some(t) => {
            lemma_inject_inert(t);
            lemma_plain(seq!['<']);
            lemma_plain(seq!['>']);
            lemma_concat_even(seq!['<'], spec_safe_inject(t));
            lemma_concat_even(seq!['<'] + spec_safe_inject(t), seq!['>']);
        },
        None => {
            lemma_plain(seq!['<', 'E', 'O', 'F', '>']);
        },
    }
    lemma_no_primitive(spec_format_g_input(input));
}

proof fn lemma_safe_text(s: Seq<char>)
    ensures
        no_active_letter(safe_text(s)),
{
    lemma_encode_inert(crate::primitives::spec_downgrade(s));
}

proof fn lemma_tag_if(b: bool, t: Seq<char>)
    requires
        forall|i: int| 0 <= i < t.len() ==> t[i] != '\\',
    ensures
        no_active_letter(tag_if(b, t)),
        even_tail(tag_if(b, t)),
{
    lemma_plain(tag_if(b, t));
}

proof fn lemma_key_text(k: KeyView)
    ensures
        no_active_letter(key_text(k)),
{
    let a = tag_if(k.has_start, start_tag());
    let b = tag_if(k.has_once, once_tag());
    let e = tag_if(k.has_end, crate::parser::end_tag());
    lemma_tag_if(k.has_start, start_tag());
    lemma_tag_if(k.has_once, once_tag());
    lemma_tag_if(k.has_end, crate::parser::end_tag());
    lemma_safe_text(k.lhs);
    lemma_concat_even(a, b);
    lemma_concat_even(a + b, safe_text(k.lhs));
    if k.has_end {
        lemma_concat_sep(a + b + safe_text(k.lhs), e);
    } else {
        assert(a + b + safe_text(k.lhs) + e =~= a + b + safe_text(k.lhs));
    }
}

proof fn lemma_rule_line(r: RuleView)
    ensures
        no_active_letter(rule_line(r)),
        rule_line(r).len() > 0,
{
    let k = key_text(r.key);
    let eq = seq!['='];
    let pre = prefix_text(r.rhs_prefix);
    lemma_key_text(r.key);
    lemma_plain(eq);
    lemma_plain(pre);
    lemma_safe_text(r.rhs);
    lemma_concat_sep(k, eq);
    lemma_concat_even(k + eq, pre);
    lemma_concat_even(k + eq + pre, safe_text(r.rhs));
    assert((k + eq + pre + safe_text(r.rhs)).len() > 0);
}

proof fn lemma_rule_lines(rules: Seq<RuleView>)
    ensures
        no_active_letter(rule_lines(rules)),
    decreases rules.len(),
{
    if rules.len() == 1 {
        lemma_rule_line(rules[0]);
    } else if rules.len() > 1 {
        lemma_rule_lines(rules.drop_last());
        lemma_rule_line(rules.last());
        lemma_plain(seq!['\n']);
        lemma_concat_sep(rule_lines(rules.drop_last()), seq!['\n']);
        lemma_concat_even(rule_lines(rules.drop_last()) + seq!['\n'], rule_line(rules.last()));
    } else {
        lemma_plain(rule_lines(rules));
    }
}

/// The introspection capsule produced by `\c` holds no active primitive, so
/// feeding it back into the tape (or into `\r`) has no side effect.
pub proof fn law_serialized_rules_are_inert(rules: Seq<RuleView>)
    ensures
        spec_leftmost_primitive(spec_serialize(rules)) is None,
{
    lemma_rule_lines(rules);
    lemma_plain(seq!['<']);
    lemma_plain(seq!['>']);
    lemma_concat_even(seq!['<'], rule_lines(rules));
    lemma_concat_sep(seq!['<'] + rule_lines(rules), seq!['>']);
    lemma_no_primitive(spec_serialize(rules));
}

// ---------------------------------------------------------------------------
// The introspection capsule is one token
// ---------------------------------------------------------------------------
/// Every `>` of `t` is escaped, and `t` does not end inside an escape.
pub open spec fn gt_sealed(t: Seq<char>) -> bool {
    &&& !escaped_before(t, t.len() as int)
    &&& forall|p: int| 0 <= p < t.len() && t[p] == '>' ==> #[trigger] escaped_before(t, p)
}

/// After a text that ends outside an escape, scanning starts afresh.
proof fn lemma_escaped_concat(a: Seq<char>, b: Seq<char>, j: int)
    requires
        !escaped_before(a, a.len() as int),
        0 <= j <= b.len(),
    ensures
        escaped_before(a + b, a.len() + j) == escaped_before(b, j),
    decreases j,
{
    if j == 0 {
        lemma_escaped_prefix(a, b, a.len() as int);
    } else {
        lemma_escaped_concat(a, b, j - 1);
        assert((a + b)[a.len() + j - 1] == b[j - 1]);
    }
}

proof fn lemma_sealed_concat(a: Seq<char>, b: Seq<char>)
    requires
        gt_sealed(a),
        gt_sealed(b),
    ensures
        gt_sealed(a + b),
{
    let x = a + b;
    lemma_escaped_concat(a, b, b.len() as int);
    assert(x.len() == a.len() + b.len());
    assert forall|p: int| 0 <= p < x.len() && x[p] == '>' implies #[trigger] escaped_before(x, p) by {
        if p < a.len() {
            lemma_escaped_prefix(a, b, p);
            assert(x[p] == a[p]);
        } else {
            lemma_escaped_concat(a, b, p - a.len());
            assert(x[p] == b[p - a.len()]);
        }
    }
}

proof fn lemma_sealed_plain(t: Seq<char>)
    requires
        forall|j: int| 0 <= j < t.len() ==> t[j] != '\\' && t[j] != '>',
    ensures
        gt_sealed(t),
{
    lemma_no_backslash_not_escaped(t, t.len() as int);
}

proof fn lemma_encode_sealed(s: Seq<char>)
    requires
        !escaped_before(s, s.len() as int),
    ensures
        gt_sealed(spec_encode_runtime(s)),
    decreases s.len(),
{
    if s.len() == 0 {
        lemma_sealed_plain(spec_encode_runtime(s));
    } else if s[0] != '\\' {
        let rest = s.drop_first();
        assert(s =~= seq![s[0]] + rest);
        lemma_no_backslash_not_escaped(seq![s[0]], 1);
        lemma_escaped_concat(seq![s[0]], rest, rest.len() as int);
        lemma_encode_sealed(rest);
        let tok = if s[0] == '<' || s[0] == '>' {
            seq!['\\', s[0]]
        } else {
            seq![s[0]]
        };
        if s[0] == '<' || s[0] == '>' {
            assert(!escaped_before(tok, 0));
            assert(escaped_before(tok, 1));
            assert(!escaped_before(tok, 2));
        } else {
            lemma_sealed_plain(tok);
        }
        lemma_sealed_concat(tok, spec_encode_runtime(rest));
    } else if s.len() == 1 {
        assert(!escaped_before(s, 0));
        assert(escaped_before(s, 1));
    } else {
        let rest = s.skip(2);
        let head = seq!['\\', s[1]];
        assert(s =~= head + rest);
        assert(!escaped_before(head, 0));
        assert(escaped_before(head, 1));
        assert(!escaped_before(head, 2));
        lemma_escaped_concat(head, rest, rest.len() as int);
        lemma_encode_sealed(rest);
        let tok = seq!['\\', lazy_letter(s[1])];
        assert(!escaped_before(tok, 0));
        assert(escaped_before(tok, 1));
        assert(!escaped_before(tok, 2));
        lemma_sealed_concat(tok, spec_encode_runtime(rest));
    }
}

/// Texts with backslashes in the same places are escaped in the same places.
proof fn lemma_same_backslashes(a: Seq<char>, b: Seq<char>, i: int)
    requires
        a.len() == b.len(),
        forall|k: int| 0 <= k < a.len() ==> (a[k] == '\\') == (b[k] == '\\'),
        i <= a.len(),
    ensures
        escaped_before(a, i) == escaped_before(b, i),
    decreases i,
{
    if i > 0 {
        lemma_same_backslashes(a, b, i - 1);
    }
}

proof fn lemma_safe_text_sealed(s: Seq<char>)
    requires
        !escaped_before(s, s.len() as int),
    ensures
        gt_sealed(safe_text(s)),
{
    let d = spec_downgrade(s);
    law_downgrade_raises_only_primitive_letters(s);
    assert forall|k: int| 0 <= k < s.len() implies (s[k] == '\\') == (d[k] == '\\') by {
        assert(kept_or_raised(s, d[k], k));
    }
    lemma_same_backslashes(s, d, s.len() as int);
    lemma_encode_sealed(d);
}

proof fn lemma_tag_sealed(b: bool, t: Seq<char>)
    requires
        forall|j: int| 0 <= j < t.len() ==> t[j] != '\\' && t[j] != '>',
    ensures
        gt_sealed(tag_if(b, t)),
{
    lemma_sealed_plain(tag_if(b, t));
}

/// Neither text of the rule ends in an unpaired backslash.
pub open spec fn texts_end_outside_escape(r: RuleView) -> bool {
    !escaped_before(r.key.lhs, r.key.lhs.len() as int) && !escaped_before(r.rhs, r.rhs.len() as int)
}

proof fn lemma_rule_line_sealed(r: RuleView)
    requires
        texts_end_outside_escape(r),
    ensures
        gt_sealed(rule_line(r)),
{
    let k = r.key;
    let a = tag_if(k.has_start, start_tag());
    let b = tag_if(k.has_once, once_tag());
    let e = tag_if(k.has_end, crate::parser::end_tag());
    lemma_tag_sealed(k.has_start, start_tag());
    lemma_tag_sealed(k.has_once, once_tag());
    lemma_tag_sealed(k.has_end, crate::parser::end_tag());
    lemma_safe_text_sealed(k.lhs);
    lemma_sealed_concat(a, b);
    lemma_sealed_concat(a + b, safe_text(k.lhs));
    lemma_sealed_concat(a + b + safe_text(k.lhs), e);
    let eq = seq!['='];
    let pre = prefix_text(r.rhs_prefix);
    lemma_sealed_plain(eq);
    lemma_sealed_plain(pre);
    lemma_safe_text_sealed(r.rhs);
    lemma_sealed_concat(key_text(k), eq);
    lemma_sealed_concat(key_text(k) + eq, pre);
    lemma_sealed_concat(key_text(k) + eq + pre, safe_text(r.rhs));
}

proof fn lemma_rule_lines_sealed(rules: Seq<RuleView>)
    requires
        forall|i: int| 0 <= i < rules.len() ==> #[trigger] texts_end_outside_escape(rules[i]),
    ensures
        gt_sealed(rule_lines(rules)),
    decreases rules.len(),
{
    if rules.len() == 0 {
        lemma_sealed_plain(rule_lines(rules));
    } else if rules.len() == 1 {
        assert(texts_end_outside_escape(rules[0]));
        lemma_rule_line_sealed(rules[0]);
    } else {
        let init = rules.drop_last();
        assert forall|i: int| 0 <= i < init.len() implies #[trigger] texts_end_outside_escape(
            init[i],
        ) by {
            assert(init[i] == rules[i]);
            assert(texts_end_outside_escape(rules[i]));
        }
        lemma_rule_lines_sealed(init);
        assert(texts_end_outside_escape(rules[rules.len() - 1]));
        lemma_rule_line_sealed(rules.last());
        lemma_sealed_plain(seq!['\n']);
        lemma_sealed_concat(rule_lines(init), seq!['\n']);
        lemma_sealed_concat(rule_lines(init) + seq!['\n'], rule_line(rules.last()));
    }
}

/// Text whose escapes all pass validation ends outside an escape; so every
/// rule that parsing produces meets [`texts_end_outside_escape`].
pub proof fn law_valid_escapes_end_outside_escape(s: Seq<char>, line: int)
    requires
        check_escapes(s, line) is Ok,
    ensures
        !escaped_before(s, s.len() as int),
    decreases s.len(),
{
    if s.len() > 0 {
        if s[0] != '\\' {
            let rest = s.drop_first();
            law_valid_escapes_end_outside_escape(rest, line);
            assert(s =~= seq![s[0]] + rest);
            lemma_no_backslash_not_escaped(seq![s[0]], 1);
            lemma_escaped_concat(seq![s[0]], rest, rest.len() as int);
        } else {
            let rest = s.skip(2);
            let head = seq!['\\', s[1]];
            law_valid_escapes_end_outside_escape(rest, line);
            assert(s =~= head + rest);
            assert(!escaped_before(head, 0));
            assert(escaped_before(head, 1));
            assert(!escaped_before(head, 2));
            lemma_escaped_concat(head, rest, rest.len() as int);
        }
    }
}

/// The introspection capsule `<...>` is one indivisible token: its first
/// unescaped `>` is its last character, for every rule set whose texts end
/// outside an escape (as every parsed rule's do).
pub proof fn law_introspection_capsule_is_one_token(rules: Seq<RuleView>)
    requires
        forall|i: int| 0 <= i < rules.len() ==> #[trigger] texts_end_outside_escape(rules[i]),
    ensures
        crate::vm::token_len(spec_serialize(rules), 0) == spec_serialize(rules).len(),
{
    let x = spec_serialize(rules);
    let y = rule_lines(rules);
    let z = x.skip(1);
    assert(z =~= y + seq!['>']);
    lemma_rule_lines_sealed(rules);
    lemma_escaped_prefix(y, seq!['>'], y.len() as int);
    assert forall|p: int| 0 <= p < y.len() implies !#[trigger] crate::text::unescaped_pred(z, '>')(p) by {
        lemma_escaped_prefix(y, seq!['>'], p);
        assert(z[p] == y[p]);
    }
    assert(z[y.len() as int] == '>');
    assert(crate::text::unescaped_pred(z, '>')(y.len() as int));
    crate::text::lemma_first_upto_at(crate::text::unescaped_pred(z, '>'), z.len() as int, y.len() as int);
}

// ---------------------------------------------------------------------------
// Escape decoding
// ---------------------------------------------------------------------------
/// Decoding text that decodes on its own, followed by more text.
proof fn lemma_decode_concat(a: Seq<char>, b: Seq<char>)
    requires
        spec_decode(a) is Ok,
    ensures
        spec_decode(a + b) == prepend(spec_decode(a)->Ok_0, spec_decode(b)),
    decreases a.len(),
{
    if a.len() == 0 {
        assert(a + b =~= b);
        match spec_decode(b) {
            Ok(d) => {
                assert(seq![] + d =~= d);
            },
            Err(_) => {},
        }
    } else if a[0] != '\\' {
        assert((a + b).drop_first() =~= a.drop_first() + b);
        lemma_decode_concat(a.drop_first(), b);
        match spec_decode(b) {
            Ok(d) => {
                assert(seq![a[0]] + (spec_decode(a.drop_first())->Ok_0 + d) =~= (seq![a[0]]
                    + spec_decode(a.drop_first())->Ok_0) + d);
            },
            Err(_) => {},
        }
    } else {
        assert((a + b).skip(2) =~= a.skip(2) + b);
        lemma_decode_concat(a.skip(2), b);
        let o = decode_pair(a[1])->0;
        match spec_decode(b) {
            Ok(d) => {
                assert(o + (spec_decode(a.skip(2))->Ok_0 + d) =~= (o + spec_decode(a.skip(2))->Ok_0)
                    + d);
            },
            Err(_) => {},
        }
    }
}

/// Injected text decodes back to exactly the text that was injected.
pub proof fn law_injection_round_trip(s: Seq<char>)
    ensures
        spec_decode(spec_safe_inject(s)) == Ok::<Seq<char>, ErrorView>(s),
    decreases s.len(),
{
    if s.len() == 0 {
        assert(spec_safe_inject(s) =~= Seq::<char>::empty());
        assert(s =~= Seq::<char>::empty());
    } else {
        let c = s.last();
        law_injection_round_trip(s.drop_last());
        let t = inject_char(c);
        assert(spec_decode(t) == Ok::<Seq<char>, ErrorView>(seq![c])) by {
            reveal_with_fuel(spec_decode, 2);
            if c == '\\' || c == '<' || c == '>' {
                assert(t.skip(2) =~= Seq::<char>::empty());
                assert(seq![c] + Seq::<char>::empty() =~= seq![c]);
            } else {
                assert(t.drop_first() =~= Seq::<char>::empty());
                assert(seq![c] + Seq::<char>::empty() =~= seq![c]);
            }
        }
        lemma_decode_concat(spec_safe_inject(s.drop_last()), t);
        assert(spec_safe_inject(s) == spec_safe_inject(s.drop_last()) + t);
        assert(s.drop_last() + seq![c] =~= s);
    }
}

/// Rule text passes escape validation exactly when it can be decoded: both
/// accept the same escape table and reject a trailing backslash.
pub proof fn law_validation_matches_decoding(s: Seq<char>, line: int)
    ensures
        (check_escapes(s, line) is Ok) == (spec_decode(s) is Ok),
    decreases s.len(),
{
    if s.len() == 0 {
    } else if s[0] != '\\' {
        law_validation_matches_decoding(s.drop_first(), line);
    } else if s.len() == 1 {
    } else {
        law_validation_matches_decoding(s.skip(2), line);
    }
}

// ---------------------------------------------------------------------------
// Rule syntax
// ---------------------------------------------------------------------------
proof fn lemma_not_start(x: Seq<char>)
    requires
        x.len() > 1,
        x[1] == 'o',
    ensures
        !matches_at(x, 0, start_tag()),
{
    if x.len() >= 7 {
        assert(x.subrange(0, 7)[1] != start_tag()[1]);
    }
}

proof fn lemma_not_once(x: Seq<char>)
    requires
        x.len() > 1,
        x[1] == 's',
    ensures
        !matches_at(x, 0, once_tag()),
{
    if x.len() >= 6 {
        assert(x.subrange(0, 6)[1] != once_tag()[1]);
    }
}

proof fn lemma_tag_front(tag: Seq<char>, rest: Seq<char>)
    ensures
        matches_at(tag + rest, 0, tag),
        (tag + rest).skip(tag.len() as int) == rest,
{
    assert((tag + rest).subrange(0, tag.len() as int) =~= tag);
    assert((tag + rest).skip(tag.len() as int) =~= rest);
}

/// `(start)` and `(once)` may be written in either order.
pub proof fn law_lhs_prefix_order_irrelevant(rest: Seq<char>, line: int)
    ensures
        spec_parse_rule(start_tag() + once_tag() + rest, line) == spec_parse_rule(
            once_tag() + start_tag() + rest,
            line,
        ),
{
    let a = start_tag() + once_tag() + rest;
    let b = once_tag() + start_tag() + rest;
    assert(a =~= start_tag() + (once_tag() + rest));
    assert(b =~= once_tag() + (start_tag() + rest));
    lemma_tag_front(start_tag(), once_tag() + rest);
    lemma_tag_front(once_tag(), rest);
    lemma_tag_front(once_tag(), start_tag() + rest);
    lemma_tag_front(start_tag(), rest);
    lemma_not_start(once_tag() + rest);
    lemma_not_start(b);
    lemma_not_once(start_tag() + rest);
    assert(lhs_prefixes_from(a, false, false, line) == lhs_prefixes_from(
        once_tag() + rest,
        true,
        false,
        line,
    ));
    assert(lhs_prefixes_from(once_tag() + rest, true, false, line) == lhs_prefixes_from(
        rest,
        true,
        true,
        line,
    ));
    assert(lhs_prefixes_from(b, false, false, line) == lhs_prefixes_from(
        start_tag() + rest,
        false,
        true,
        line,
    ));
    assert(lhs_prefixes_from(start_tag() + rest, false, true, line) == lhs_prefixes_from(
        rest,
        true,
        true,
        line,
    ));
}

proof fn lemma_prefix_shape(s: Seq<char>, st: bool, on: bool, line: int)
    ensures
        match lhs_prefixes_from(s, st, on, line) {
            Ok((st2, on2, rest)) => {
                &&& !(rest.len() > 0 && rest[0] == '(')
                &&& (st ==> st2) && (on ==> on2)
                &&& (s == tag_if(st2 && !st, start_tag()) + tag_if(on2 && !on, once_tag()) + rest
                    || s == tag_if(on2 && !on, once_tag()) + tag_if(st2 && !st, start_tag()) + rest)
            },
            Err(e) => e matches ErrorView::Parse { line: l, .. } && l == line,
        },
    decreases s.len(),
{
    if matches_at(s, 0, start_tag()) {
        if !st {
            let t = s.skip(7);
            lemma_prefix_shape(t, true, on, line);
            assert(s =~= start_tag() + t);
            if let Ok((st2, on2, rest)) = lhs_prefixes_from(t, true, on, line) {
                assert(t == tag_if(on2 && !on, once_tag()) + rest);
                assert(s =~= tag_if(true, start_tag()) + tag_if(on2 && !on, once_tag()) + rest);
            }
        }
    } else if matches_at(s, 0, once_tag()) {
        if !on {
            let t = s.skip(6);
            lemma_prefix_shape(t, st, true, line);
            assert(s =~= once_tag() + t);
            if let Ok((st2, on2, rest)) = lhs_prefixes_from(t, st, true, line) {
                assert(t == tag_if(st2 && !st, start_tag()) + rest);
                assert(s =~= tag_if(true, once_tag()) + tag_if(st2 && !st, start_tag()) + rest);
            }
        }
    } else if !(s.len() > 0 && s[0] == '(') {
        assert(s =~= tag_if(false, start_tag()) + tag_if(false, once_tag()) + s);
    }
}

/// Reading the LHS prefixes either fails with a parse error on the rule's
/// line, or takes off a leading `(start)`, `(once)`, both (in either order)
/// or neither, and leaves text that does not start with `(`.
pub proof fn law_lhs_prefix_shape(s: Seq<char>, line: int)
    ensures
        match lhs_prefixes_from(s, false, false, line) {
            Ok((st, on, rest)) => {
                &&& !(rest.len() > 0 && rest[0] == '(')
                &&& (s == tag_if(st, start_tag()) + tag_if(on, once_tag()) + rest || s == tag_if(
                    on,
                    once_tag(),
                ) + tag_if(st, start_tag()) + rest)
            },
            Err(e) => e matches ErrorView::Parse { line: l, .. } && l == line,
        },
{
    lemma_prefix_shape(s, false, false, line);
}

proof fn lemma_plain_front(rest: Seq<char>, st: bool, on: bool, line: int)
    requires
        !(rest.len() > 0 && rest[0] == '('),
    ensures
        lhs_prefixes_from(rest, st, on, line) == Ok::<(bool, bool, Seq<char>), ErrorView>(
            (st, on, rest),
        ),
{
    if rest.len() >= 7 {
        assert(rest.subrange(0, 7)[0] == rest[0]);
    }
    if rest.len() >= 6 {
        assert(rest.subrange(0, 6)[0] == rest[0]);
    }
}

/// Conversely, every such front is read: `(start)` and `(once)`, each at
/// most once and in either order, before text that does not start with `(`.
pub proof fn law_lhs_prefixes_are_read(st: bool, on: bool, rest: Seq<char>, line: int)
    requires
        !(rest.len() > 0 && rest[0] == '('),
    ensures
        lhs_prefixes_from(tag_if(st, start_tag()) + tag_if(on, once_tag()) + rest, false, false, line)
            == Ok::<(bool, bool, Seq<char>), ErrorView>((st, on, rest)),
        lhs_prefixes_from(tag_if(on, once_tag()) + tag_if(st, start_tag()) + rest, false, false, line)
            == Ok::<(bool, bool, Seq<char>), ErrorView>((st, on, rest)),
{
    lemma_plain_front(rest, st, on, line);
    lemma_tag_front(start_tag(), rest);
    lemma_tag_front(once_tag(), rest);
    lemma_plain_front(rest, true, on, line);
    lemma_plain_front(rest, st, true, line);
    lemma_plain_front(rest, false, false, line);
    lemma_plain_front(rest, true, false, line);
    lemma_plain_front(rest, false, true, line);
    lemma_plain_front(rest, true, true, line);
    let so = start_tag() + once_tag() + rest;
    let os = once_tag() + start_tag() + rest;
    assert(so =~= start_tag() + (once_tag() + rest));
    assert(os =~= once_tag() + (start_tag() + rest));
    lemma_tag_front(start_tag(), once_tag() + rest);
    lemma_tag_front(once_tag(), start_tag() + rest);
    lemma_not_start(once_tag() + rest);
    lemma_not_start(os);
    lemma_not_once(start_tag() + rest);
    let sr = start_tag() + rest;
    let or = once_tag() + rest;
    assert(lhs_prefixes_from(sr, false, false, line) == lhs_prefixes_from(rest, true, false, line));
    assert(lhs_prefixes_from(sr, false, true, line) == lhs_prefixes_from(rest, true, true, line));
    lemma_not_start(or);
    assert(lhs_prefixes_from(or, false, false, line) == lhs_prefixes_from(rest, false, true, line));
    assert(lhs_prefixes_from(or, true, false, line) == lhs_prefixes_from(rest, true, true, line));
    assert(lhs_prefixes_from(so, false, false, line) == lhs_prefixes_from(or, true, false, line));
    assert(lhs_prefixes_from(os, false, false, line) == lhs_prefixes_from(sr, false, true, line));
    if st && on {
        assert(tag_if(st, start_tag()) + tag_if(on, once_tag()) + rest == so);
        assert(tag_if(on, once_tag()) + tag_if(st, start_tag()) + rest == os);
    } else if st {
        assert(tag_if(st, start_tag()) + tag_if(on, once_tag()) + rest =~= sr);
        assert(tag_if(on, once_tag()) + tag_if(st, start_tag()) + rest =~= sr);
    } else if on {
        assert(tag_if(st, start_tag()) + tag_if(on, once_tag()) + rest =~= or);
        assert(tag_if(on, once_tag()) + tag_if(st, start_tag()) + rest =~= or);
    } else {
        assert(tag_if(st, start_tag()) + tag_if(on, once_tag()) + rest =~= rest);
        assert(tag_if(on, once_tag()) + tag_if(st, start_tag()) + rest =~= rest);
    }
}

/// `s` is `(start)` and `(once)`, each at most once and in either order,
/// followed by text that does not start with `(`.
pub open spec fn well_prefixed(s: Seq<char>) -> bool {
    exists|st: bool, on: bool, rest: Seq<char>|
        !(rest.len() > 0 && rest[0] == '(') && (s == tag_if(st, start_tag()) + tag_if(on, once_tag())
            + rest || s == tag_if(on, once_tag()) + tag_if(st, start_tag()) + rest)
}

/// Reading the LHS prefixes fails, with a parse error on the rule's line,
/// exactly when the text is not well prefixed: when a `(start)` or `(once)`
/// token repeats, or the text after the tokens starts with `(`.
pub proof fn law_lhs_prefix_error_iff(s: Seq<char>, line: int)
    ensures
        (lhs_prefixes_from(s, false, false, line) is Err) <==> !well_prefixed(s),
        lhs_prefixes_from(s, false, false, line) matches Err(e) ==> (e matches ErrorView::Parse {
            line: l,
            ..
        } && l == line),
{
    law_lhs_prefix_shape(s, line);
    match lhs_prefixes_from(s, false, false, line) {
        Ok((st, on, rest)) => {
            assert(well_prefixed(s));
        },
        Err(_) => {
            if well_prefixed(s) {
                let (st, on, rest) = choose|st: bool, on: bool, rest: Seq<char>|
                    !(rest.len() > 0 && rest[0] == '(') && (s == tag_if(st, start_tag()) + tag_if(
                        on,
                        once_tag(),
                    ) + rest || s == tag_if(on, once_tag()) + tag_if(st, start_tag()) + rest);
                law_lhs_prefixes_are_read(st, on, rest, line);
            }
        },
    }
}

/// Repeating an LHS prefix is a parse error.
pub proof fn law_duplicate_prefix_rejected(rest: Seq<char>, line: int)
    ensures
        spec_parse_rule(once_tag() + once_tag() + rest, line) is Err,
        spec_parse_rule(start_tag() + start_tag() + rest, line) is Err,
{
    let a = once_tag() + once_tag() + rest;
    assert(a =~= once_tag() + (once_tag() + rest));
    lemma_tag_front(once_tag(), once_tag() + rest);
    lemma_tag_front(once_tag(), rest);
    lemma_not_start(a);
    lemma_not_start(once_tag() + rest);
    assert(lhs_prefixes_from(a, false, false, line) == lhs_prefixes_from(
        once_tag() + rest,
        false,
        true,
        line,
    ));
    assert(lhs_prefixes_from(once_tag() + rest, false, true, line) is Err);
    let b = start_tag() + start_tag() + rest;
    assert(b =~= start_tag() + (start_tag() + rest));
    lemma_tag_front(start_tag(), start_tag() + rest);
    lemma_tag_front(start_tag(), rest);
    assert(lhs_prefixes_from(b, false, false, line) == lhs_prefixes_from(
        start_tag() + rest,
        true,
        false,
        line,
    ));
    assert(lhs_prefixes_from(start_tag() + rest, true, false, line) is Err);
}

/// `(del)` is not a rule modifier: outside `\r{...}` it is a parse error.
pub proof fn law_del_is_not_a_modifier(rest: Seq<char>, line: int)
    ensures
        spec_parse_rule(crate::primitives::del_tag() + rest, line) is Err,
{
    let a = crate::primitives::del_tag() + rest;
    assert(a[0] == '(' && a[1] == 'd');
    if a.len() >= 7 {
        assert(a.subrange(0, 7)[1] != start_tag()[1]);
    }
    if a.len() >= 6 {
        assert(a.subrange(0, 6)[1] != once_tag()[1]);
    }
}

proof fn lemma_no_backslash_not_escaped(s: Seq<char>, i: int)
    requires
        0 <= i <= s.len(),
        forall|j: int| 0 <= j < i ==> s[j] != '\\',
    ensures
        !crate::text::escaped_before(s, i),
    decreases i,
{
    if i > 0 {
        lemma_no_backslash_not_escaped(s, i - 1);
    }
}

proof fn lemma_check_plain(s: Seq<char>, line: int)
    requires
        forall|j: int| 0 <= j < s.len() ==> s[j] != '\\',
    ensures
        check_escapes(s, line) is Ok,
    decreases s.len(),
{
    if s.len() > 0 {
        assert forall|j: int| 0 <= j < s.drop_first().len() implies s.drop_first()[j] != '\\' by {
            assert(s.drop_first()[j] == s[j + 1]);
        }
        lemma_check_plain(s.drop_first(), line);
    }
}

/// No implicit trimming: a plain rule `LHS=RHS` (no backslash, no `=` in the
/// LHS, no modifier) is parsed with both texts kept exactly, whitespace
/// included.
pub proof fn law_rule_text_kept_verbatim(lhs: Seq<char>, rhs: Seq<char>, line: int)
    requires
        forall|j: int| 0 <= j < lhs.len() ==> lhs[j] != '\\' && lhs[j] != '=' && lhs[j] != '(',
        forall|j: int| 0 <= j < rhs.len() ==> rhs[j] != '\\' && rhs[j] != '(',
    ensures
        spec_parse_rule(lhs + seq!['='] + rhs, line) == Ok::<RuleView, ErrorView>(
            RuleView {
                key: KeyView { lhs, has_start: false, has_end: false, has_once: false },
                rhs,
                rhs_prefix: crate::rule::RhsPrefix::Normal,
                used: false,
            },
        ),
{
    let s = lhs + seq!['='] + rhs;
    assert(s[0] != '(') by {
        if lhs.len() == 0 {
            assert(s[0] == '=');
        } else {
            assert(s[0] == lhs[0]);
        }
    }
    if s.len() >= 7 {
        assert(s.subrange(0, 7)[0] == s[0]);
    }
    if s.len() >= 6 {
        assert(s.subrange(0, 6)[0] == s[0]);
    }
    assert(lhs_prefixes_from(s, false, false, line) == Ok::<(bool, bool, Seq<char>), ErrorView>(
        (false, false, s),
    ));
    let m = lhs.len() as int;
    assert forall|j: int| 0 <= j < m implies !#[trigger] crate::text::unescaped_pred(s, '=')(j) by {
        assert(s[j] == lhs[j]);
    }
    assert forall|j: int| 0 <= j < m implies s[j] != '\\' by {
        assert(s[j] == lhs[j]);
    }
    lemma_no_backslash_not_escaped(s, m);
    assert(s[m] == '=');
    assert(crate::text::unescaped_pred(s, '=')(m));
    crate::text::lemma_first_upto_at(crate::text::unescaped_pred(s, '='), s.len() as int, m);
    assert(s.take(m) =~= lhs);
    assert(s.skip(m + 1) =~= rhs);
    if lhs.len() >= 5 {
        assert(lhs.subrange(lhs.len() - 5, lhs.len() as int)[0] == lhs[lhs.len() - 5]);
    }
    if rhs.len() >= 5 {
        assert(rhs.subrange(0, 5)[0] == rhs[0]);
    }
    if rhs.len() >= 6 {
        assert(rhs.subrange(0, 6)[0] == rhs[0]);
    }
    if rhs.len() >= 7 {
        assert(rhs.subrange(0, 7)[0] == rhs[0]);
    }
    lemma_check_plain(lhs, line);
    lemma_check_plain(rhs, line);
}

/// A doubled `(end)` suffix is a parse error, unless the first `(end)` is
/// escaped by a backslash that ends the LHS.
pub proof fn law_duplicate_end_rejected(lhs: Seq<char>, line: int)
    requires
        !crate::text::escaped_before(lhs, lhs.len() as int),
    ensures
        crate::parser::lhs_suffix(lhs + crate::parser::end_tag() + crate::parser::end_tag(), line) is Err,
{
    let e = crate::parser::end_tag();
    let x = lhs + e + e;
    let y = x.take(x.len() - 5);
    assert(x.subrange(x.len() - 5, x.len() as int) =~= e);
    assert(x[x.len() - 6] == ')');
    assert(!crate::text::escaped_before(x, x.len() - 5));
    assert(y =~= lhs + e);
    assert(y.subrange(y.len() - 5, y.len() as int) =~= e);
    lemma_escaped_prefix(lhs, e, lhs.len() as int);
}

/// An `(end)` whose `(` is escaped is literal LHS text, not an anchor.
pub proof fn law_escaped_end_is_literal(lhs: Seq<char>, line: int)
    requires
        !crate::text::escaped_before(lhs, lhs.len() as int),
    ensures
        crate::parser::lhs_suffix(lhs + seq!['\\'] + crate::parser::end_tag(), line) == Ok::<
            (bool, Seq<char>),
            ErrorView,
        >((false, lhs + seq!['\\'] + crate::parser::end_tag())),
{
    let e = crate::parser::end_tag();
    let b = seq!['\\'];
    let x = lhs + b + e;
    assert(x.subrange(x.len() - 5, x.len() as int) =~= e);
    assert(x =~= (lhs + b) + e);
    lemma_escaped_prefix(lhs + b, e, lhs.len() + 1int);
    lemma_escaped_prefix(lhs, b, lhs.len() as int);
    assert((lhs + b)[lhs.len() as int] == '\\');
}

// ---------------------------------------------------------------------------
// Injected input is one token
// ---------------------------------------------------------------------------
proof fn lemma_escaped_prefix(x: Seq<char>, y: Seq<char>, p: int)
    requires
        0 <= p <= x.len(),
    ensures
        crate::text::escaped_before(x + y, p) == crate::text::escaped_before(x, p),
    decreases p,
{
    if p > 0 {
        assert((x + y)[p - 1] == x[p - 1]);
        lemma_escaped_prefix(x, y, p - 1);
    }
}

/// In injected text every `>` is escaped and the text ends outside an escape.
proof fn lemma_inject_escapes_gt(t: Seq<char>)
    ensures
        !crate::text::escaped_before(spec_safe_inject(t), spec_safe_inject(t).len() as int),
        forall|p: int|
            0 <= p < spec_safe_inject(t).len() && spec_safe_inject(t)[p] == '>'
                ==> #[trigger] crate::text::escaped_before(spec_safe_inject(t), p),
    decreases t.len(),
{
    if t.len() > 0 {
        let y = spec_safe_inject(t.drop_last());
        let c = t.last();
        let tok = inject_char(c);
        let x = y + tok;
        lemma_inject_escapes_gt(t.drop_last());
        assert(spec_safe_inject(t) == x);
        lemma_escaped_prefix(y, tok, y.len() as int);
        assert(x[y.len() as int] == tok[0]);
        let n = y.len() as int;
        assert(crate::text::escaped_before(x, n + 1) == (!crate::text::escaped_before(x, n) && x[n]
            == '\\'));
        if c == '\\' || c == '<' || c == '>' {
            assert(x[n + 1] == c);
            assert(crate::text::escaped_before(x, n + 2) == (!crate::text::escaped_before(x, n + 1)
                && x[n + 1] == '\\'));
        }
        assert forall|p: int| 0 <= p < x.len() && x[p] == '>' implies #[trigger] crate::text::escaped_before(
            x,
            p,
        ) by {
            if p < y.len() {
                lemma_escaped_prefix(y, tok, p);
                assert(x[p] == y[p]);
            }
        }
    }
}

/// The text that replaces `\g` with input is one indivisible `<...>`
/// capsule: its first unescaped `>` is its last character, so no rule can
/// match inside it.
pub proof fn law_injected_input_is_one_token(t: Seq<char>)
    ensures
        crate::vm::token_len(spec_format_g_input(Some(t)), 0) == spec_format_g_input(Some(t)).len(),
{
    let x = spec_format_g_input(Some(t));
    let y = spec_safe_inject(t);
    let z = x.skip(1);
    assert(z =~= y + seq!['>']);
    lemma_inject_escapes_gt(t);
    lemma_escaped_prefix(y, seq!['>'], y.len() as int);
    assert forall|p: int| 0 <= p < y.len() implies !#[trigger] crate::text::unescaped_pred(z, '>')(p) by {
        lemma_escaped_prefix(y, seq!['>'], p);
        assert(z[p] == y[p]);
    }
    assert(z[y.len() as int] == '>');
    assert(crate::text::unescaped_pred(z, '>')(y.len() as int));
    crate::text::lemma_first_upto_at(crate::text::unescaped_pred(z, '>'), z.len() as int, y.len() as int);
}

// ---------------------------------------------------------------------------
// Reflection
// ---------------------------------------------------------------------------
proof fn lemma_decode_errors_are_parse(s: Seq<char>)
    ensures
        spec_decode(s) matches Err(e) ==> e is Parse,
    decreases s.len(),
{
    if s.len() > 0 {
        if s[0] != '\\' {
            lemma_decode_errors_are_parse(s.drop_first());
        } else if s.len() > 1 {
            lemma_decode_errors_are_parse(s.skip(2));
        }
    }
}

proof fn lemma_prefix_errors_are_parse(s: Seq<char>, st: bool, on: bool, line: int)
    ensures
        lhs_prefixes_from(s, st, on, line) matches Err(e) ==> e is Parse,
    decreases s.len(),
{
    if matches_at(s, 0, start_tag()) {
        lemma_prefix_errors_are_parse(s.skip(7), true, on, line);
    } else if matches_at(s, 0, once_tag()) {
        lemma_prefix_errors_are_parse(s.skip(6), st, true, line);
    }
}

proof fn lemma_check_errors_are_parse(s: Seq<char>, line: int)
    ensures
        check_escapes(s, line) matches Err(e) ==> e is Parse,
    decreases s.len(),
{
    if s.len() > 0 {
        if s[0] != '\\' {
            lemma_check_errors_are_parse(s.drop_first(), line);
        } else if s.len() > 1 {
            lemma_check_errors_are_parse(s.skip(2), line);
        }
    }
}

/// Every error of rule parsing is a parse error.
pub proof fn law_rule_errors_are_parse_errors(s: Seq<char>, line: int)
    ensures
        spec_parse_rule(s, line) matches Err(e) ==> e is Parse,
{
    lemma_prefix_errors_are_parse(s, false, false, line);
    if let Ok((_, _, rest)) = lhs_prefixes_from(s, false, false, line) {
        if let Some(i) = first_unescaped(rest, '=') {
            if let Ok((_, lhs)) = crate::parser::lhs_suffix(rest.take(i), line) {
                lemma_check_errors_are_parse(lhs, line);
                lemma_check_errors_are_parse(crate::parser::rhs_prefix(rest.skip(i + 1)).1, line);
            }
        }
    }
}

/// A reflection that fails reports a parse error (of the payload's
/// escapes, or of the rule or key it holds).
pub proof fn law_reflection_errors_are_parse_errors(payload: Seq<char>, rules: Seq<RuleView>)
    ensures
        spec_reflect(payload, rules) matches Err(e) ==> e is Parse,
{
    lemma_decode_errors_are_parse(payload);
    if let Ok(d) = spec_decode(payload) {
        law_rule_errors_are_parse_errors(d.skip(5) + seq!['='], 0);
        law_rule_errors_are_parse_errors(d, 0);
    }
}

/// Deleting a key removes every rule with that key and keeps every other
/// rule, in order.
pub proof fn law_delete_removes_exactly_the_key(rules: Seq<RuleView>, key: KeyView)
    ensures
        forall|i: int| 0 <= i < remove_key(rules, key).len() ==> #[trigger] remove_key(rules, key)[i].key != key,
        forall|i: int| 0 <= i < rules.len() && rules[i].key != key ==> remove_key(rules, key).contains(
            #[trigger] rules[i],
        ),
        remove_key(rules, key).len() <= rules.len(),
    decreases rules.len(),
{
    if rules.len() > 0 {
        law_delete_removes_exactly_the_key(rules.drop_last(), key);
        let rest = remove_key(rules.drop_last(), key);
        assert forall|i: int| 0 <= i < rules.len() && rules[i].key != key implies remove_key(
            rules,
            key,
        ).contains(#[trigger] rules[i]) by {
            if i < rules.len() - 1 {
                assert(rules.drop_last()[i] == rules[i]);
                let j = choose|j: int| 0 <= j < rest.len() && rest[j] == rules[i];
                if rules.last().key != key {
                    assert(rest.push(rules.last())[j] == rules[i]);
                }
            } else {
                assert(rest.push(rules.last())[rest.len() as int] == rules[i]);
            }
        }
    }
}

/// Upserting a rule leaves exactly one more or the same number of rules,
/// puts the rule in the set, and keeps every rule with another key.
pub proof fn law_upsert_replaces_or_appends(rules: Seq<RuleView>, r: RuleView)
    ensures
        upsert(rules, r).contains(r),
        upsert(rules, r).len() == rules.len() || upsert(rules, r).len() == rules.len() + 1,
        forall|i: int| 0 <= i < rules.len() && rules[i].key != r.key ==> #[trigger] upsert(rules, r)[i]
            == rules[i],
{
    lemma_first_upto(key_pred(rules, r.key), rules.len() as int);
    match first_upto(key_pred(rules, r.key), rules.len() as int) {
        Some(i) => {
            assert(rules.update(i, r)[i] == r);
        },
        None => {
            assert(rules.push(r)[rules.len() as int] == r);
        },
    }
}

// ---------------------------------------------------------------------------
// Running the machine
// ---------------------------------------------------------------------------
proof fn lemma_step_wf(s: VmView)
    requires
        vm_wf(s),
    ensures
        spec_step(s) matches StepOut::Continue(s2) ==> vm_wf(s2) && s2.fuel + s2.step_count == s.fuel
            + s.step_count && s2.tape_limit == s.tape_limit && tape_bytes(s2.tape) <= s.tape_limit,
        spec_step(s) matches StepOut::Stop(s2, r) ==> s2.fuel + s2.step_count == s.fuel + s.step_count
            && s2.fuel <= s.fuel && s2.tape_limit == s.tape_limit && (r is Ok ==> (s2.tape == s.tape
            || tape_bytes(s2.tape) <= s.tape_limit)),
{
}

/// Fuel is conserved by a run: every mutation moves one unit of fuel to the
/// step counter, the tape limit never changes, and fuel never grows.
pub proof fn law_fuel_accounting(s: VmView)
    requires
        vm_wf(s),
    ensures
        spec_run(s).0.fuel + spec_run(s).0.step_count == s.fuel + s.step_count,
        spec_run(s).0.fuel <= s.fuel,
        spec_run(s).0.tape_limit == s.tape_limit,
    decreases s.fuel,
{
    lemma_step_wf(s);
    lemma_step_decreases(s);
    match spec_step(s) {
        StepOut::Continue(s2) => {
            law_fuel_accounting(s2);
        },
        StepOut::Stop(_, _) => {},
    }
}

/// A run that succeeds either leaves the tape untouched or leaves it within
/// the tape limit: every mutation is checked against the limit.
pub proof fn law_successful_run_respects_tape_limit(s: VmView)
    requires
        vm_wf(s),
    ensures
        spec_run(s).1 is Ok ==> spec_run(s).0.tape == s.tape || tape_bytes(spec_run(s).0.tape)
            <= s.tape_limit,
    decreases s.fuel,
{
    lemma_step_wf(s);
    lemma_step_decreases(s);
    match spec_step(s) {
        StepOut::Continue(s2) => {
            law_successful_run_respects_tape_limit(s2);
        },
        StepOut::Stop(_, _) => {},
    }
}

/// `s` with `d` more units of fuel.
pub open spec fn with_more_fuel(s: VmView, d: nat) -> VmView {
    VmView { fuel: (s.fuel + d) as u64, ..s }
}

/// The run or step stopped because fuel ran out.
pub open spec fn is_fuel_error(r: Result<RequestView, ErrorView>) -> bool {
    r matches Err(ErrorView::FuelExceeded { .. })
}

/// The step counter of the state a step leaves.
pub open spec fn out_step_count(o: StepOut) -> int {
    match o {
        StepOut::Continue(s2) => s2.step_count as int,
        StepOut::Stop(s2, _) => s2.step_count as int,
    }
}

/// A step outcome with `d` more units of fuel in the state it leaves.
pub open spec fn out_with_more_fuel(o: StepOut, d: nat) -> StepOut {
    match o {
        StepOut::Continue(s2) => StepOut::Continue(with_more_fuel(s2, d)),
        StepOut::Stop(s2, r) => StepOut::Stop(with_more_fuel(s2, d), r),
    }
}

proof fn lemma_commit_more_fuel(s: VmView, tape2: Seq<char>, rules2: Seq<RuleView>, d: nat)
    requires
        s.fuel > 0,
        s.fuel + d + s.step_count <= u64::MAX,
    ensures
        commit(with_more_fuel(s, d), tape2, rules2) == out_with_more_fuel(commit(s, tape2, rules2), d),
        out_step_count(commit(with_more_fuel(s, d), tape2, rules2)) == s.step_count + 1,
{
    let t = with_more_fuel(s, d);
    let s2 = VmView {
        tape: tape2,
        rules: rules2,
        fuel: (s.fuel - 1) as u64,
        step_count: (s.step_count + 1) as u64,
        pending: None,
        ..s
    };
    let t2 = VmView {
        tape: tape2,
        rules: rules2,
        fuel: (t.fuel - 1) as u64,
        step_count: (t.step_count + 1) as u64,
        pending: None,
        ..t
    };
    assert(t2 == with_more_fuel(s2, d));
}

proof fn lemma_step_more_fuel(s: VmView, d: nat)
    requires
        vm_wf(s),
        s.fuel + d + s.step_count <= u64::MAX,
    ensures
        match spec_step(s) {
            StepOut::Continue(s2) => spec_step(with_more_fuel(s, d)) == StepOut::Continue(
                with_more_fuel(s2, d),
            ),
            StepOut::Stop(s2, r) => if is_fuel_error(r) {
                &&& s.fuel == 0
                &&& r == Err::<RequestView, ErrorView>(fuel_error(s))
                &&& d > 0 ==> out_step_count(spec_step(with_more_fuel(s, d))) == s.step_count + 1
            } else {
                spec_step(with_more_fuel(s, d)) == StepOut::Stop(with_more_fuel(s2, d), r)
            },
        },
{
    let t = with_more_fuel(s, d);
    assert(spec_leftmost_primitive(t.tape) == spec_leftmost_primitive(s.tape));
    match s.pending {
        Some(PendingView::Edit { start, end, replacement }) => {
            let tape2 = splice(s.tape, start, end, replacement);
            if s.fuel > 0 {
                lemma_commit_more_fuel(s, tape2, s.rules, d);
            } else if d > 0 {
                lemma_commit_more_fuel(t, tape2, s.rules, 0);
                assert(with_more_fuel(t, 0) == t);
            }
        },
        Some(PendingView::Input { .. }) => {},
        None => {
            match spec_leftmost_primitive(s.tape) {
                Some((a, b, PrimKind::P)) => {
                    lemma_decode_errors_are_parse(s.tape.subrange(a + 3, b - 1));
                },
                Some((a, b, PrimKind::R)) => {
                    law_reflection_errors_are_parse_errors(s.tape.subrange(a + 3, b - 1), s.rules);
                    match spec_execute_r(s.tape, a, b, s.rules) {
                        Ok(rules2) => {
                            let tape2 = splice(s.tape, a, b, seq![]);
                            if s.fuel > 0 {
                                lemma_commit_more_fuel(s, tape2, rules2, d);
                            } else if d > 0 {
                                lemma_commit_more_fuel(t, tape2, rules2, 0);
                                assert(with_more_fuel(t, 0) == t);
                            }
                        },
                        Err(_) => {},
                    }
                },
                Some((a, b, PrimKind::C)) => {
                    let tape2 = splice(s.tape, a, b, spec_serialize(s.rules));
                    if s.fuel > 0 {
                        lemma_commit_more_fuel(s, tape2, s.rules, d);
                    } else if d > 0 {
                        lemma_commit_more_fuel(t, tape2, s.rules, 0);
                        assert(with_more_fuel(t, 0) == t);
                    }
                },
                Some(_) => {},
                None => {
                    match spec_find_rule(s.tape, s.rules) {
                        Some((i, a, b)) => {
                            let rule = s.rules[i];
                            let rules2 = if rule.key.has_once {
                                s.rules.update(i, RuleView { used: true, ..rule })
                            } else {
                                s.rules
                            };
                            let tape2 = match rule.rhs_prefix {
                                RhsPrefix::Start => rule.rhs + splice(s.tape, a, b, seq![]),
                                RhsPrefix::End => splice(s.tape, a, b, seq![]) + rule.rhs,
                                _ => splice(s.tape, a, b, rule.rhs),
                            };
                            if s.fuel > 0 {
                                lemma_commit_more_fuel(s, tape2, rules2, d);
                            } else if d > 0 {
                                lemma_commit_more_fuel(t, tape2, rules2, 0);
                                assert(with_more_fuel(t, 0) == t);
                            }
                        },
                        None => {},
                    }
                },
            }
        },
    }
}

/// Extra fuel only bounds a run. A run that does not run out of fuel ends
/// the same way with more fuel (same tape, rules and answer; the extra fuel
/// is left over). A run that runs out does so after using all its fuel,
/// reporting every step taken, and with any more fuel the run takes more
/// steps than that.
pub proof fn law_fuel_only_bounds_the_run(s: VmView, d: nat)
    requires
        vm_wf(s),
        s.fuel + d + s.step_count <= u64::MAX,
    ensures
        !is_fuel_error(spec_run(s).1) ==> spec_run(with_more_fuel(s, d)) == (
            with_more_fuel(spec_run(s).0, d),
            spec_run(s).1,
        ),
        is_fuel_error(spec_run(s).1) ==> {
            &&& spec_run(s).1 == Err::<RequestView, ErrorView>(
                ErrorView::FuelExceeded { steps: (s.step_count + s.fuel) as u64 },
            )
            &&& d > 0 ==> spec_run(with_more_fuel(s, d)).0.step_count > s.step_count + s.fuel
        },
    decreases s.fuel,
{
    let t = with_more_fuel(s, d);
    lemma_step_wf(s);
    lemma_step_decreases(s);
    lemma_step_more_fuel(s, d);
    lemma_step_decreases(t);
    match spec_step(s) {
        StepOut::Continue(s2) => {
            law_fuel_only_bounds_the_run(s2, d);
            assert(spec_run(t) == spec_run(with_more_fuel(s2, d)));
        },
        StepOut::Stop(s2, r) => {
            if is_fuel_error(r) && d > 0 {
                lemma_step_wf(t);
                match spec_step(t) {
                    StepOut::Continue(s3) => {
                        law_fuel_accounting(s3);
                    },
                    StepOut::Stop(_, _) => {},
                }
            }
        },
    }
}

// ---------------------------------------------------------------------------
// Primitive selection and rule matching
// ---------------------------------------------------------------------------
/// An active primitive starts at `a`: `\p{` or `\r{` closed by a later
/// unescaped `}`, or `\g` or `\c`, each from an active backslash.
pub open spec fn primitive_at(s: Seq<char>, a: int) -> bool {
    ||| block_pred(s, p_open())(a)
    ||| block_pred(s, r_open())(a)
    ||| simple_pred(s, g_prim())(a)
    ||| simple_pred(s, c_prim())(a)
}

/// Where the primitive of kind `k` at `a` ends: just after its closing `}`
/// for a block, two characters on for `\g` and `\c`.
pub open spec fn primitive_end(s: Seq<char>, a: int, k: PrimKind) -> Option<int> {
    match k {
        PrimKind::P => block_end_at(s, a, p_open()),
        PrimKind::R => block_end_at(s, a, r_open()),
        PrimKind::G => if simple_pred(s, g_prim())(a) { Some(a + 2) } else { None },
        PrimKind::C => if simple_pred(s, c_prim())(a) { Some(a + 2) } else { None },
    }
}

proof fn lemma_scan_block(s: Seq<char>, prefix: Seq<char>)
    ensures
        match spec_scan_block(s, prefix) {
            Some((a, e)) => block_pred(s, prefix)(a) && block_end_at(s, a, prefix) == Some(e)
                && forall|q: int| q < a ==> !#[trigger] block_pred(s, prefix)(q),
            None => forall|q: int| !#[trigger] block_pred(s, prefix)(q),
        },
{
    let p = block_pred(s, prefix);
    lemma_first_upto(p, s.len() as int + 1);
    assert forall|q: int| q < 0 || q > s.len() implies !#[trigger] p(q) by {}
}

proof fn lemma_scan_simple(s: Seq<char>, pat: Seq<char>)
    ensures
        match spec_scan_simple(s, pat) {
            Some((a, e)) => simple_pred(s, pat)(a) && e == a + pat.len()
                && forall|q: int| q < a ==> !#[trigger] simple_pred(s, pat)(q),
            None => forall|q: int| !#[trigger] simple_pred(s, pat)(q),
        },
{
    let p = simple_pred(s, pat);
    lemma_first_upto(p, s.len() as int + 1);
    assert forall|q: int| q < 0 || q > s.len() implies !#[trigger] p(q) by {}
}

/// The primitive executed next is the leftmost active one, and it spans up
/// to its closing `}` (blocks) or two characters (`\g`, `\c`); there is
/// none exactly when no active primitive starts anywhere.
pub proof fn law_leftmost_primitive_is_first_active(s: Seq<char>)
    ensures
        match spec_leftmost_primitive(s) {
            Some((a, e, k)) => {
                &&& primitive_at(s, a)
                &&& primitive_end(s, a, k) == Some(e)
                &&& forall|q: int| q < a ==> !#[trigger] primitive_at(s, q)
            },
            None => forall|q: int| !#[trigger] primitive_at(s, q),
        },
{
    lemma_scan_block(s, p_open());
    lemma_scan_block(s, r_open());
    lemma_scan_simple(s, g_prim());
    lemma_scan_simple(s, c_prim());
    assert(g_prim().len() == 2);
    assert(c_prim().len() == 2);
}

/// `a` is an occurrence of the key's LHS that its anchors allow: it starts
/// and ends on token boundaries, at the tape's start for `(start)` and at its
/// end for `(end)`.
pub open spec fn allowed_match(tape: Seq<char>, key: KeyView, a: int) -> bool {
    &&& plain_pred(tape, key.lhs)(a)
    &&& key.has_start ==> a == 0
    &&& key.has_end ==> a + key.lhs.len() == tape.len()
}

/// A rule matches at an allowed occurrence of its LHS (the leftmost one when
/// it has no anchor), and matches nowhere exactly when it has none.
pub proof fn law_rule_match_is_leftmost_allowed_occurrence(tape: Seq<char>, key: KeyView)
    ensures
        match spec_match_rule(tape, key) {
            Some((a, b)) => {
                &&& b == a + key.lhs.len()
                &&& allowed_match(tape, key, a)
                &&& !key.has_start && !key.has_end ==> forall|a2: int|
                    0 <= a2 < a ==> !#[trigger] allowed_match(tape, key, a2)
            },
            None => forall|a: int| !#[trigger] allowed_match(tape, key, a),
        },
{
    let n = tape.len() as int;
    let m = key.lhs.len() as int;
    let p = plain_pred(tape, key.lhs);
    assert(is_boundary(tape, 0)) by {
        if n > 0 {
            assert(token_start_from(tape, 0, 0));
        }
    }
    if !key.has_start && !key.has_end {
        lemma_first_upto(p, n - m + 1);
        match first_upto(p, n - m + 1) {
            Some(a) => {
                assert forall|a2: int| 0 <= a2 < a implies !#[trigger] allowed_match(tape, key, a2) by {
                    assert(!p(a2));
                }
            },
            None => {
                assert forall|a: int| !#[trigger] allowed_match(tape, key, a) by {
                    if 0 <= a < n - m + 1 {
                        assert(!p(a));
                    }
                }
            },
        }
    }
}

/// With both `(start)` and `(end)`, a rule matches exactly when the tape
/// equals its LHS.
pub proof fn law_anchored_rule_matches_whole_tape(tape: Seq<char>, key: KeyView)
    requires
        key.has_start,
        key.has_end,
    ensures
        (crate::vm::spec_match_rule(tape, key) is Some) == (tape == key.lhs),
{
    if tape == key.lhs {
        assert(tape.subrange(0, key.lhs.len() as int) =~= key.lhs);
    } else if matches_at(tape, 0, key.lhs) && key.lhs.len() == tape.len() {
        assert(tape =~= tape.subrange(0, key.lhs.len() as int));
    }
}

/// When no primitive is active, nothing is pending and no rule matches, the
/// machine halts without changing anything (no fuel is used).
pub proof fn law_normal_halt_changes_nothing(s: VmView)
    requires
        s.pending is None,
        spec_leftmost_primitive(s.tape) is None,
        crate::vm::spec_find_rule(s.tape, s.rules) is None,
    ensures
        spec_run(s) == (s, Ok::<crate::vm::RequestView, ErrorView>(crate::vm::RequestView::Halted)),
{
}

/// Without fuel nothing is mutated: the run stops with the tape and the
/// step counter as they were (a mutation would need a unit of fuel).
pub proof fn law_no_mutation_without_fuel(s: VmView)
    requires
        s.fuel == 0,
    ensures
        spec_run(s).0.tape == s.tape,
        spec_run(s).0.step_count == s.step_count,
{
    lemma_step_decreases(s);
}

// ---------------------------------------------------------------------------
// Serialized rules parse back
// ---------------------------------------------------------------------------
proof fn lemma_first_equals_after(lhs: Seq<char>, e: Seq<char>, tail: Seq<char>)
    requires
        first_unescaped(lhs, '=') is None,
        !escaped_before(lhs, lhs.len() as int),
        forall|j: int| 0 <= j < e.len() ==> e[j] != '\\' && e[j] != '=',
    ensures
        first_unescaped(lhs + e + seq!['='] + tail, '=') == Some((lhs.len() + e.len()) as int),
{
    let y = e + seq!['='] + tail;
    let x = lhs + e + seq!['='] + tail;
    assert(x =~= lhs + y);
    let i = (lhs.len() + e.len()) as int;
    let p = unescaped_pred(x, '=');
    lemma_first_upto(unescaped_pred(lhs, '='), lhs.len() as int);
    lemma_no_backslash_not_escaped(e, e.len() as int);
    lemma_escaped_prefix(e, seq!['='] + tail, e.len() as int);
    assert(e + (seq!['='] + tail) =~= y);
    lemma_escaped_concat(lhs, y, e.len() as int);
    assert(x[i] == '=');
    assert forall|j: int| 0 <= j < i implies !#[trigger] p(j) by {
        if j < lhs.len() {
            lemma_escaped_prefix(lhs, y, j);
            assert(x[j] == lhs[j]);
            assert(!unescaped_pred(lhs, '=')(j));
        } else {
            assert(x[j] == e[j - lhs.len()]);
        }
    }
    crate::text::lemma_first_upto_at(p, x.len() as int, i);
}

/// The shape of a parsed rule: its texts pass escape validation, its LHS
/// holds no unescaped `=`, does not (with the `(end)` tag) start with `(` and
/// does not end with an unescaped `(end)`, and an unprefixed RHS does not
/// start with an RHS tag.
pub open spec fn parsed_form(r: RuleView) -> bool {
    let body = r.key.lhs + tag_if(r.key.has_end, crate::parser::end_tag());
    &&& check_escapes(r.key.lhs, 0) is Ok
    &&& check_escapes(r.rhs, 0) is Ok
    &&& first_unescaped(r.key.lhs, '=') is None
    &&& !(body.len() > 0 && body[0] == '(')
    &&& !crate::parser::ends_with_end_tag(r.key.lhs)
    &&& r.rhs_prefix == RhsPrefix::Normal ==> crate::parser::rhs_prefix(r.rhs).0 == RhsPrefix::Normal
}

proof fn lemma_check_any_line(s: Seq<char>, a: int, b: int)
    requires
        check_escapes(s, a) is Ok,
    ensures
        check_escapes(s, b) is Ok,
    decreases s.len(),
{
    if s.len() > 0 {
        if s[0] != '\\' {
            lemma_check_any_line(s.drop_first(), a, b);
        } else {
            lemma_check_any_line(s.skip(2), a, b);
        }
    }
}

proof fn lemma_rhs_prefix_read(p: RhsPrefix, rhs: Seq<char>)
    requires
        p == RhsPrefix::Normal ==> crate::parser::rhs_prefix(rhs).0 == RhsPrefix::Normal,
    ensures
        crate::parser::rhs_prefix(prefix_text(p) + rhs) == (p, rhs),
{
    match p {
        RhsPrefix::Start => {
            lemma_tag_front(start_tag(), rhs);
        },
        RhsPrefix::End => {
            let x = crate::parser::end_tag() + rhs;
            lemma_tag_front(crate::parser::end_tag(), rhs);
            if x.len() >= 7 {
                assert(x.subrange(0, 7)[1] != start_tag()[1]);
            }
        },
        RhsPrefix::Halt => {
            let x = crate::parser::halt_tag() + rhs;
            lemma_tag_front(crate::parser::halt_tag(), rhs);
            if x.len() >= 7 {
                assert(x.subrange(0, 7)[1] != start_tag()[1]);
            }
            assert(x.subrange(0, 5)[1] != crate::parser::end_tag()[1]);
        },
        RhsPrefix::Normal => {
            assert(seq![] + rhs =~= rhs);
        },
    }
}

proof fn lemma_suffix_read(lhs: Seq<char>, has_end: bool, line: int)
    requires
        !escaped_before(lhs, lhs.len() as int),
        !crate::parser::ends_with_end_tag(lhs),
    ensures
        crate::parser::lhs_suffix(lhs + tag_if(has_end, crate::parser::end_tag()), line) == Ok::<
            (bool, Seq<char>),
            ErrorView,
        >((has_end, lhs)),
{
    let body = lhs + tag_if(has_end, crate::parser::end_tag());
    if has_end {
        let t = crate::parser::end_tag();
        assert(body.subrange(body.len() - 5, body.len() as int) =~= t);
        lemma_escaped_prefix(lhs, t, lhs.len() as int);
        assert(body.take(body.len() - 5) =~= lhs);
    } else {
        assert(body =~= lhs);
    }
}

proof fn lemma_parse_rule_parts(
    x: Seq<char>,
    rest: Seq<char>,
    i: int,
    key: KeyView,
    p: RhsPrefix,
    rhs: Seq<char>,
    line: int,
)
    requires
        lhs_prefixes_from(x, false, false, line) == Ok::<(bool, bool, Seq<char>), ErrorView>(
            (key.has_start, key.has_once, rest),
        ),
        first_unescaped(rest, '=') == Some(i),
        crate::parser::lhs_suffix(rest.take(i), line) == Ok::<(bool, Seq<char>), ErrorView>(
            (key.has_end, key.lhs),
        ),
        crate::parser::rhs_prefix(rest.skip(i + 1)) == (p, rhs),
        check_escapes(key.lhs, line) is Ok,
        check_escapes(rhs, line) is Ok,
    ensures
        spec_parse_rule(x, line) == Ok::<RuleView, ErrorView>(
            RuleView { key, rhs, rhs_prefix: p, used: false },
        ),
{
}

/// The text `\c` writes for a rule whose texts it leaves as they are.
pub open spec fn plain_rule_line(k: KeyView, p: RhsPrefix, rhs: Seq<char>) -> Seq<char> {
    tag_if(k.has_start, start_tag()) + tag_if(k.has_once, once_tag()) + plain_rule_rest(k, p, rhs)
}

/// The text after the LHS prefixes of [`plain_rule_line`].
pub open spec fn plain_rule_rest(k: KeyView, p: RhsPrefix, rhs: Seq<char>) -> Seq<char> {
    k.lhs + tag_if(k.has_end, crate::parser::end_tag()) + seq!['='] + prefix_text(p) + rhs
}

proof fn lemma_line_parts(k: KeyView, p: RhsPrefix, rhs: Seq<char>, line: int)
    requires
        parsed_form(RuleView { key: k, rhs, rhs_prefix: p, used: false }),
    ensures
        ({
            let rest = plain_rule_rest(k, p, rhs);
            let i = (k.lhs.len() + tag_if(k.has_end, crate::parser::end_tag()).len()) as int;
            &&& lhs_prefixes_from(plain_rule_line(k, p, rhs), false, false, line) == Ok::<
                (bool, bool, Seq<char>),
                ErrorView,
            >((k.has_start, k.has_once, rest))
            &&& first_unescaped(rest, '=') == Some(i)
            &&& crate::parser::lhs_suffix(rest.take(i), line) == Ok::<(bool, Seq<char>), ErrorView>(
                (k.has_end, k.lhs),
            )
            &&& crate::parser::rhs_prefix(rest.skip(i + 1)) == (p, rhs)
            &&& check_escapes(k.lhs, line) is Ok
            &&& check_escapes(rhs, line) is Ok
        }),
{
    law_valid_escapes_end_outside_escape(k.lhs, 0);
    lemma_rest_prefixes(k, p, rhs, line);
    lemma_rest_first_equals(k, p, rhs);
    lemma_rest_suffix(k, p, rhs, line);
    lemma_rest_prefix(k, p, rhs);
    lemma_check_any_line(k.lhs, 0, line);
    lemma_check_any_line(rhs, 0, line);
}

proof fn lemma_rest_prefixes(k: KeyView, p: RhsPrefix, rhs: Seq<char>, line: int)
    requires
        ({
            let body = k.lhs + tag_if(k.has_end, crate::parser::end_tag());
            !(body.len() > 0 && body[0] == '(')
        }),
    ensures
        lhs_prefixes_from(plain_rule_line(k, p, rhs), false, false, line) == Ok::<
            (bool, bool, Seq<char>),
            ErrorView,
        >((k.has_start, k.has_once, plain_rule_rest(k, p, rhs))),
{
    let body = k.lhs + tag_if(k.has_end, crate::parser::end_tag());
    let rest = plain_rule_rest(k, p, rhs);
    if body.len() > 0 {
        assert(rest[0] == body[0]);
    }
    law_lhs_prefixes_are_read(k.has_start, k.has_once, rest, line);
}

proof fn lemma_rest_first_equals(k: KeyView, p: RhsPrefix, rhs: Seq<char>)
    requires
        first_unescaped(k.lhs, '=') is None,
        !escaped_before(k.lhs, k.lhs.len() as int),
    ensures
        first_unescaped(plain_rule_rest(k, p, rhs), '=') == Some(
            (k.lhs.len() + tag_if(k.has_end, crate::parser::end_tag()).len()) as int,
        ),
{
    let e = tag_if(k.has_end, crate::parser::end_tag());
    lemma_first_equals_after(k.lhs, e, prefix_text(p) + rhs);
    assert(k.lhs + e + seq!['='] + (prefix_text(p) + rhs) =~= plain_rule_rest(k, p, rhs));
}

proof fn lemma_rest_suffix(k: KeyView, p: RhsPrefix, rhs: Seq<char>, line: int)
    requires
        !escaped_before(k.lhs, k.lhs.len() as int),
        !crate::parser::ends_with_end_tag(k.lhs),
    ensures
        crate::parser::lhs_suffix(
            plain_rule_rest(k, p, rhs).take(
                (k.lhs.len() + tag_if(k.has_end, crate::parser::end_tag()).len()) as int,
            ),
            line,
        ) == Ok::<(bool, Seq<char>), ErrorView>((k.has_end, k.lhs)),
{
    let body = k.lhs + tag_if(k.has_end, crate::parser::end_tag());
    assert(plain_rule_rest(k, p, rhs).take(body.len() as int) =~= body);
    lemma_suffix_read(k.lhs, k.has_end, line);
}

proof fn lemma_rest_prefix(k: KeyView, p: RhsPrefix, rhs: Seq<char>)
    requires
        p == RhsPrefix::Normal ==> crate::parser::rhs_prefix(rhs).0 == RhsPrefix::Normal,
    ensures
        crate::parser::rhs_prefix(
            plain_rule_rest(k, p, rhs).skip(
                (k.lhs.len() + tag_if(k.has_end, crate::parser::end_tag()).len()) as int + 1,
            ),
        ) == (p, rhs),
{
    let body = k.lhs + tag_if(k.has_end, crate::parser::end_tag());
    assert(plain_rule_rest(k, p, rhs).skip(body.len() + 1int) =~= prefix_text(p) + rhs);
    lemma_rhs_prefix_read(p, rhs);
}

/// A rule in parsed form whose texts runtime escaping leaves as they are
/// (no active primitive, no unescaped `<` or `>`) is serialized by `\c` as a
/// line that parses back to the same rule, with its `used` flag clear.
pub proof fn law_serialized_rule_parses_back(r: RuleView, line: int)
    requires
        parsed_form(r),
        safe_text(r.key.lhs) == r.key.lhs,
        safe_text(r.rhs) == r.rhs,
    ensures
        spec_parse_rule(rule_line(r), line) == Ok::<RuleView, ErrorView>(RuleView { used: false, ..r }),
{
    let k = r.key;
    let x = plain_rule_line(k, r.rhs_prefix, r.rhs);
    let rest = plain_rule_rest(k, r.rhs_prefix, r.rhs);
    let i = (k.lhs.len() + tag_if(k.has_end, crate::parser::end_tag()).len()) as int;
    assert(parsed_form(RuleView { key: k, rhs: r.rhs, rhs_prefix: r.rhs_prefix, used: false }));
    lemma_line_parts(k, r.rhs_prefix, r.rhs, line);
    lemma_parse_rule_parts(x, rest, i, k, r.rhs_prefix, r.rhs, line);
    lemma_rule_line_plain(r);
}

proof fn lemma_rule_line_plain(r: RuleView)
    requires
        safe_text(r.key.lhs) == r.key.lhs,
        safe_text(r.rhs) == r.rhs,
    ensures
        rule_line(r) == plain_rule_line(r.key, r.rhs_prefix, r.rhs),
{
    let k = r.key;
    let a = tag_if(k.has_start, start_tag()) + tag_if(k.has_once, once_tag());
    let e = tag_if(k.has_end, crate::parser::end_tag());
    let tail = seq!['='] + prefix_text(r.rhs_prefix) + r.rhs;
    assert(key_text(k) == a + k.lhs + e);
}

proof fn lemma_no_equals_before(rest: Seq<char>, i: int, m: int)
    requires
        first_unescaped(rest, '=') == Some(i),
        0 <= m <= i,
    ensures
        first_unescaped(rest.take(m), '=') is None,
{
    let t = rest.take(m);
    lemma_first_upto(unescaped_pred(rest, '='), rest.len() as int);
    assert(rest =~= t + rest.skip(m));
    assert forall|j: int| 0 <= j < m implies !#[trigger] unescaped_pred(t, '=')(j) by {
        lemma_escaped_prefix(t, rest.skip(m), j);
        assert(!unescaped_pred(rest, '=')(j));
        assert(t[j] == rest[j]);
    }
    lemma_first_upto_none(unescaped_pred(t, '='), m);
}

/// Every rule that parsing yields has the shape of a parsed rule, and is
/// not yet marked used.
pub proof fn law_parsed_rules_have_parsed_form(l: Seq<char>, line: int)
    ensures
        spec_parse_rule(l, line) matches Ok(r) ==> parsed_form(r) && !r.used,
{
    law_lhs_prefix_shape(l, line);
    if let Ok((st, on, rest)) = lhs_prefixes_from(l, false, false, line) {
        if let Some(i) = first_unescaped(rest, '=') {
            lemma_first_upto(unescaped_pred(rest, '='), rest.len() as int);
            let raw = rest.take(i);
            if let Ok((has_end, lhs)) = crate::parser::lhs_suffix(raw, line) {
                let (p, rhs) = crate::parser::rhs_prefix(rest.skip(i + 1));
                if let Ok(r) = spec_parse_rule(l, line) {
                    lemma_check_any_line(lhs, line, 0);
                    lemma_check_any_line(rhs, line, 0);
                    let body = lhs + tag_if(has_end, crate::parser::end_tag());
                    if has_end {
                        lemma_no_equals_before(rest, i, i - 5);
                        assert(lhs =~= rest.take(i - 5));
                        assert(raw.subrange(raw.len() - 5, raw.len() as int) == crate::parser::end_tag());
                        assert(body =~= raw);
                    } else {
                        lemma_no_equals_before(rest, i, i);
                        assert(body =~= raw);
                    }
                    if body.len() > 0 {
                        assert(raw[0] == rest[0]);
                    }
                    if p == RhsPrefix::Normal {
                        assert(rhs == rest.skip(i + 1));
                    }
                }
            }
        }
    }
}

/// Parsing a rule, serializing it with `\c` and parsing the line again
/// gives the same rule, whenever runtime escaping leaves its texts as they
/// are (no active primitive, no unescaped `<` or `>`).
pub proof fn law_parse_serialize_parse(l: Seq<char>, line: int, line2: int)
    requires
        spec_parse_rule(l, line) is Ok,
        safe_text(spec_parse_rule(l, line)->Ok_0.key.lhs) == spec_parse_rule(l, line)->Ok_0.key.lhs,
        safe_text(spec_parse_rule(l, line)->Ok_0.rhs) == spec_parse_rule(l, line)->Ok_0.rhs,
    ensures
        spec_parse_rule(rule_line(spec_parse_rule(l, line)->Ok_0), line2) == spec_parse_rule(l, line),
{
    let r = spec_parse_rule(l, line)->Ok_0;
    law_parsed_rules_have_parsed_form(l, line);
    law_serialized_rule_parses_back(r, line2);
    assert(RuleView { used: false, ..r } == r);
}

// ---------------------------------------------------------------------------
// What decoding, blank lines, rule application and downgrading do
// ---------------------------------------------------------------------------
/// Decoding reads the text from the front: a character other than `\\` is
/// itself; `\\`, `\=`, `\{`, `\}`, `\<`, `\>`, `\(` and `\)` each stand for
/// the one character after the backslash; `\n` and `\t` are a newline and a
/// tab; a primitive `\p`, `\P`, `\g`, `\G`, `\r`, `\R`, `\c` or `\C` is kept as
/// its two characters. An error in the rest is the error of the whole.
pub proof fn law_decode_reads_escapes(c: char, t: Seq<char>)
    ensures
        c != '\\' ==> spec_decode(seq![c] + t) == match spec_decode(t) {
            Ok(d) => Ok::<Seq<char>, ErrorView>(seq![c] + d),
            Err(e) => Err(e),
        },
        (c == '\\' || c == '=' || c == '{' || c == '}' || c == '<' || c == '>' || c == '(' || c
            == ')') ==> spec_decode(seq!['\\', c] + t) == match spec_decode(t) {
            Ok(d) => Ok::<Seq<char>, ErrorView>(seq![c] + d),
            Err(e) => Err(e),
        },
        c == 'n' ==> spec_decode(seq!['\\', c] + t) == match spec_decode(t) {
            Ok(d) => Ok::<Seq<char>, ErrorView>(seq!['\n'] + d),
            Err(e) => Err(e),
        },
        c == 't' ==> spec_decode(seq!['\\', c] + t) == match spec_decode(t) {
            Ok(d) => Ok::<Seq<char>, ErrorView>(seq!['\t'] + d),
            Err(e) => Err(e),
        },
        (c == 'p' || c == 'P' || c == 'g' || c == 'G' || c == 'r' || c == 'R' || c == 'c' || c
            == 'C') ==> spec_decode(seq!['\\', c] + t) == match spec_decode(t) {
            Ok(d) => Ok::<Seq<char>, ErrorView>(seq!['\\', c] + d),
            Err(e) => Err(e),
        },
{
    let one = seq![c] + t;
    assert(one.drop_first() =~= t);
    let two = seq!['\\', c] + t;
    assert(two.skip(2) =~= t);
    assert(two[0] == '\\' && two[1] == c);
}

/// A source line made only of whitespace is blank: it leaves the program
/// as it is.
pub proof fn law_blank_line_changes_nothing(line: Seq<char>, no: int, prog: crate::parser::ProgramView)
    requires
        forall|j: int| 0 <= j < line.len() ==> is_ws(#[trigger] line[j]),
    ensures
        crate::parser::spec_parse_line(line, no, prog) == Ok::<
            crate::parser::ProgramView,
            ErrorView,
        >(prog),
{
    crate::text::lemma_all_ws_trim_start(line);
}

/// The state a step leaves.
pub open spec fn out_state(o: StepOut) -> VmView {
    match o {
        StepOut::Continue(s2) => s2,
        StepOut::Stop(s2, _) => s2,
    }
}

/// When no primitive is active and the first live matching rule matches the
/// tape at `[a, b)`, a step with fuel removes `[a, b)` and places the rule's
/// RHS: in its place for a plain or `(halt)` rule, before the rest of the
/// tape for `(start)`, after it for `(end)`. One unit of fuel is used.
pub proof fn law_rule_application_places_rhs(s: VmView)
    requires
        vm_wf(s),
        s.pending is None,
        spec_leftmost_primitive(s.tape) is None,
        spec_find_rule(s.tape, s.rules) is Some,
        s.fuel > 0,
    ensures
        ({
            let (i, a, b) = spec_find_rule(s.tape, s.rules)->0;
            let rule = s.rules[i];
            let before = s.tape.subrange(0, a);
            let after = s.tape.subrange(b, s.tape.len() as int);
            let t2 = out_state(spec_step(s)).tape;
            &&& 0 <= a <= b <= s.tape.len()
            &&& s.tape.subrange(a, b) == rule.key.lhs
            &&& rule.rhs_prefix == RhsPrefix::Start ==> t2 == rule.rhs + before + after
            &&& rule.rhs_prefix == RhsPrefix::End ==> t2 == before + after + rule.rhs
            &&& (rule.rhs_prefix == RhsPrefix::Normal || rule.rhs_prefix == RhsPrefix::Halt) ==> t2
                == before + rule.rhs + after
            &&& out_state(spec_step(s)).fuel == s.fuel - 1
            &&& out_state(spec_step(s)).step_count == s.step_count + 1
            &&& out_state(spec_step(s)).rules.len() == s.rules.len()
            &&& forall|j: int| 0 <= j < s.rules.len() && j != i ==> #[trigger] out_state(
                spec_step(s),
            ).rules[j] == s.rules[j]
            &&& out_state(spec_step(s)).rules[i].key == rule.key
            &&& out_state(spec_step(s)).rules[i].rhs == rule.rhs
            &&& out_state(spec_step(s)).rules[i].rhs_prefix == rule.rhs_prefix
            &&& out_state(spec_step(s)).rules[i].used == (rule.used || rule.key.has_once)
            &&& tape_bytes(t2) > s.tape_limit ==> (spec_step(s) matches StepOut::Stop(
                _,
                Err(ErrorView::TapeOverflow { .. }),
            ))
            &&& tape_bytes(t2) <= s.tape_limit && rule.rhs_prefix == RhsPrefix::Halt
                ==> (spec_step(s) matches StepOut::Stop(_, Ok(RequestView::Halted)))
            &&& tape_bytes(t2) <= s.tape_limit && rule.rhs_prefix != RhsPrefix::Halt
                ==> spec_step(s) is Continue
        }),
{
    let (i, a, b) = spec_find_rule(s.tape, s.rules)->0;
    lemma_first_upto(crate::vm::rule_pred(s.tape, s.rules), s.rules.len() as int);
    let rule = s.rules[i];
    law_rule_match_is_leftmost_allowed_occurrence(s.tape, rule.key);
    assert(matches_at(s.tape, a, rule.key.lhs));
    let before = s.tape.subrange(0, a);
    let after = s.tape.subrange(b, s.tape.len() as int);
    assert(splice(s.tape, a, b, seq![]) =~= before + after);
    assert(splice(s.tape, a, b, rule.rhs) =~= before + rule.rhs + after);
    assert(rule.rhs + splice(s.tape, a, b, seq![]) =~= rule.rhs + before + after);
    assert(spec_step(s) == crate::vm::apply_rule(s, i, a, b));
}

proof fn lemma_matches_shift(x: Seq<char>, t: Seq<char>, j: int, pat: Seq<char>)
    requires
        0 <= j <= t.len(),
    ensures
        matches_at(x + t, x.len() + j, pat) == matches_at(t, j, pat),
{
    let s = x + t;
    let i = x.len() + j;
    if j + pat.len() <= t.len() {
        assert(s.subrange(i, i + pat.len()) =~= t.subrange(j, j + pat.len()));
    }
}

/// After text that does not end with a backslash, the downgrade scan of the
/// rest is the downgrade of the rest alone.
proof fn lemma_downgrade_shift(x: Seq<char>, t: Seq<char>, j: int)
    requires
        x.len() > 0,
        x.last() != '\\',
        0 <= j <= t.len(),
    ensures
        downgrade_from(x + t, x.len() + j) == downgrade_from(t, j),
    decreases t.len() - j,
{
    let s = x + t;
    let i = x.len() + j;
    if j < t.len() {
        assert(s[i] == t[j]);
        lemma_run_shift(x, t, j);
        assert(backslash_run(x, x.len() as int) == 0);
        lemma_run_le(t, j);
        assert(active_at(s, i) == active_at(t, j));
        lemma_matches_shift(x, t, j, seq!['\\', 'p', '{']);
        lemma_matches_shift(x, t, j, seq!['\\', 'r', '{']);
        lemma_matches_shift(x, t, j, seq!['\\', 'g']);
        lemma_matches_shift(x, t, j, seq!['\\', 'c']);
        if j + 3 <= t.len() {
            assert(s.skip(i + 3) =~= t.skip(j + 3));
        }
        assert(block_close(s, i, 'p') == block_close(t, j, 'p'));
        assert(block_close(s, i, 'r') == block_close(t, j, 'r'));
        if let Some(e) = block_close(t, j, 'p') {
            lemma_block_close(t, j, 'p');
            assert(s.subrange(i + 3, i + 3 + e) =~= t.subrange(j + 3, j + 3 + e));
        }
        if let Some(e) = block_close(t, j, 'r') {
            lemma_block_close(t, j, 'r');
            assert(s.subrange(i + 3, i + 3 + e) =~= t.subrange(j + 3, j + 3 + e));
        }
        assert(downgrade_token(s, i) == downgrade_token(t, j));
        lemma_downgrade_token(t, j);
        lemma_downgrade_shift(x, t, j + downgrade_token(t, j).1);
    }
}

/// Downgrading copies a character other than `\\` and goes on with the rest.
pub proof fn law_downgrade_copies_plain_char(c: char, t: Seq<char>)
    requires
        c != '\\',
    ensures
        spec_downgrade(seq![c] + t) == seq![c] + spec_downgrade(t),
{
    let s = seq![c] + t;
    assert(s[0] == c);
    lemma_downgrade_shift(seq![c], t, 0);
    assert(downgrade_from(s, 0) == seq![c] + downgrade_from(s, 1));
}

/// An active `\p{...}` or `\r{...}` block at the start, closed by the first
/// unescaped `}`, is raised to `\P{` or `\R{` with its payload and `}` copied
/// as they are; downgrading then goes on after the block.
pub proof fn law_downgrade_raises_closed_block(x: char, payload: Seq<char>, t: Seq<char>)
    requires
        x == 'p' || x == 'r',
        first_unescaped(payload + seq!['}'], '}') == Some(payload.len() as int),
    ensures
        spec_downgrade(seq!['\\', x, '{'] + payload + seq!['}'] + t) == seq![
            '\\',
            if x == 'p' { 'P' } else { 'R' },
            '{',
        ] + payload + seq!['}'] + spec_downgrade(t),
{
    let blk = seq!['\\', x, '{'] + payload + seq!['}'];
    let s = blk + t;
    let n = payload.len() as int;
    let q = payload + seq!['}'];
    assert(s.skip(3) =~= q + t);
    lemma_first_upto(unescaped_pred(q, '}'), q.len() as int);
    assert forall|j: int| 0 <= j < n implies !#[trigger] unescaped_pred(q + t, '}')(j) by {
        lemma_escaped_prefix(q, t, j);
        assert((q + t)[j] == q[j]);
        assert(!unescaped_pred(q, '}')(j));
    }
    lemma_escaped_prefix(q, t, n);
    assert((q + t)[n] == '}');
    assert(unescaped_pred(q + t, '}')(n));
    crate::text::lemma_first_upto_at(unescaped_pred(q + t, '}'), (q + t).len() as int, n);
    assert(first_unescaped(s.skip(3), '}') == Some(n));
    assert(s.subrange(0, 3) =~= seq!['\\', x, '{']);
    assert(matches_at(s, 0, seq!['\\', x, '{']));
    assert(s[0] == '\\');
    assert(active_at(s, 0));
    if x == 'r' {
        assert(s.subrange(0, 3)[1] == 'r');
        assert(!matches_at(s, 0, seq!['\\', 'p', '{']));
    }
    assert(block_close(s, 0, x) == Some(n));
    assert(s.subrange(3, 3 + n) =~= payload);
    assert(downgrade_token(s, 0).1 == blk.len());
    lemma_downgrade_token(s, 0);
    assert(blk.last() == '}');
    lemma_downgrade_shift(blk, t, 0);
    assert(downgrade_from(s, 0) == downgrade_token(s, 0).0 + downgrade_from(s, blk.len() as int));
    assert(downgrade_token(s, 0).0 =~= seq!['\\', if x == 'p' { 'P' } else { 'R' }, '{'] + payload
        + seq!['}']);
}

/// A line whose first non-whitespace character is `#` is a shebang (`#!`),
/// a comment or (`# @`) a pragma; a comment or shebang leaves the program as
/// it is. A line that starts, after whitespace, with anything else adds the
/// rule it holds at the end of the rules, or fails as that rule does.
pub proof fn law_comment_and_rule_lines(w: Seq<char>, r: Seq<char>, no: int, prog: crate::parser::ProgramView)
    requires
        forall|j: int| 0 <= j < w.len() ==> is_ws(#[trigger] w[j]),
        r.len() > 0,
        !is_ws(r[0]),
    ensures
        r[0] == '#' && !(r.len() >= 3 && r[1] == ' ' && r[2] == '@') ==> crate::parser::spec_parse_line(
            w + r,
            no,
            prog,
        ) == Ok::<crate::parser::ProgramView, ErrorView>(prog),
        r[0] != '#' ==> crate::parser::spec_parse_line(w + r, no, prog) == match spec_parse_rule(
            w + r,
            no,
        ) {
            Ok(rule) => Ok::<crate::parser::ProgramView, ErrorView>(
                crate::parser::ProgramView { rules: prog.rules.push(rule), ..prog },
            ),
            Err(e) => Err(e),
        },
{
    crate::text::lemma_ws_prefix_trim_start(w, r);
    if r.len() >= 2 {
        assert(r.subrange(0, 2)[0] == r[0]);
    }
    if r.len() >= 3 {
        assert(r.subrange(0, 3)[0] == r[0]);
        assert(r.subrange(0, 3)[1] == r[1]);
        assert(r.subrange(0, 3)[2] == r[2]);
    }
}

} // verus!
