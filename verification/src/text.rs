//! Character-level helpers shared by the parser, the tape and the machine.
//!
//! All text is modelled by its sequence of Unicode scalar values (`Seq<char>`);
//! positions are indices into that sequence.
use vstd::prelude::*;

verus! {

broadcast use vstd::string::group_string_axioms;

/// Appends one character to a `String` (`String::push`).
/// Trusted: the resulting text is the old text followed by `c`.
#[verifier::external_body]
pub(crate) fn push_char(s: &mut String, c: char)
    ensures
        final(s)@ == old(s)@.push(c),
{
    s.push(c);
}

/// The characters of `s`, in order.
pub fn chars_of(s: &str) -> (v: Vec<char>)
    ensures
        v@ == s@,
{
    let mut v: Vec<char> = Vec::new();
    for c in it: s.chars()
        invariant
            v@ == it.seq().take(it.index() as int),
            it.seq() == s@,
    {
        v.push(c);
    }
    v
}

/// A `String` holding exactly the characters of `v`.
pub fn string_of(v: &Vec<char>) -> (s: String)
    ensures
        s@ == v@,
{
    let mut s = String::new();
    let mut i: usize = 0;
    while i < v.len()
        invariant
            i <= v.len(),
            s@ == v@.take(i as int),
        decreases v.len() - i,
    {
        push_char(&mut s, v[i]);
        i += 1;
        assert(s@ =~= v@.take(i as int));
    }
    assert(v@.take(v.len() as int) =~= v@);
    s
}

/// Appends all characters of `src` to `dst`.
pub fn push_all(dst: &mut Vec<char>, src: &Vec<char>)
    ensures
        final(dst)@ == old(dst)@ + src@,
{
    let mut i: usize = 0;
    while i < src.len()
        invariant
            i <= src.len(),
            dst@ == old(dst)@ + src@.take(i as int),
        decreases src.len() - i,
    {
        dst.push(src[i]);
        i += 1;
        assert(dst@ =~= old(dst)@ + src@.take(i as int));
    }
    assert(src@.take(src.len() as int) =~= src@);
}

/// Appends the characters `src[from..to]` to `dst`.
pub fn push_range(dst: &mut Vec<char>, src: &Vec<char>, from: usize, to: usize)
    requires
        from <= to <= src.len(),
    ensures
        final(dst)@ == old(dst)@ + src@.subrange(from as int, to as int),
{
    let mut i: usize = from;
    while i < to
        invariant
            from <= i <= to <= src.len(),
            dst@ == old(dst)@ + src@.subrange(from as int, i as int),
        decreases to - i,
    {
        dst.push(src[i]);
        i += 1;
        assert(dst@ =~= old(dst)@ + src@.subrange(from as int, i as int));
    }
}

/// The first index below `n` at which `p` holds, if any.
pub open spec fn first_upto(p: spec_fn(int) -> bool, n: int) -> Option<int>
    decreases n,
{
    if n <= 0 {
        None
    } else {
        match first_upto(p, n - 1) {
            Some(i) => Some(i),
            None => if p(n - 1) {
                Some(n - 1)
            } else {
                None
            },
        }
    }
}

/// `first_upto` picks the least index at which the predicate holds.
pub proof fn lemma_first_upto(p: spec_fn(int) -> bool, n: int)
    ensures
        match first_upto(p, n) {
            Some(i) => 0 <= i < n && p(i) && forall|j: int| 0 <= j < i ==> !#[trigger] p(j),
            None => forall|j: int| 0 <= j < n ==> !#[trigger] p(j),
        },
    decreases n,
{
    if n > 0 {
        lemma_first_upto(p, n - 1);
    }
}

/// `first_upto` is determined by the least index at which the predicate holds.
pub proof fn lemma_first_upto_at(p: spec_fn(int) -> bool, n: int, i: int)
    requires
        0 <= i < n,
        p(i),
        forall|j: int| 0 <= j < i ==> !#[trigger] p(j),
    ensures
        first_upto(p, n) == Some(i),
    decreases n,
{
    if n - 1 > i {
        lemma_first_upto_at(p, n - 1, i);
    } else {
        lemma_first_upto_none(p, i);
    }
}

/// `first_upto` finds nothing when the predicate never holds below `n`.
pub proof fn lemma_first_upto_none(p: spec_fn(int) -> bool, n: int)
    requires
        forall|j: int| 0 <= j < n ==> !#[trigger] p(j),
    ensures
        first_upto(p, n) is None,
    decreases n,
{
    if n > 0 {
        lemma_first_upto_none(p, n - 1);
    }
}

/// `pat` occurs in `s` starting at index `i`.
pub open spec fn matches_at(s: Seq<char>, i: int, pat: Seq<char>) -> bool {
    0 <= i && i + pat.len() <= s.len() && s.subrange(i, i + pat.len()) == pat
}

/// Whether `pat` occurs in `s` starting at index `i`.
pub fn matches_at_exec(s: &Vec<char>, i: usize, pat: &Vec<char>) -> (b: bool)
    ensures
        b == matches_at(s@, i as int, pat@),
{
    if i > s.len() || pat.len() > s.len() - i {
        return false;
    }
    let mut k: usize = 0;
    while k < pat.len()
        invariant
            i + pat.len() <= s.len(),
            k <= pat.len(),
            forall|j: int| 0 <= j < k ==> s@[i + j] == pat@[j],
        decreases pat.len() - k,
    {
        if s[i + k] != pat[k] {
            assert(s@.subrange(i as int, i + pat.len())[k as int] != pat@[k as int]);
            return false;
        }
        k += 1;
    }
    assert(s@.subrange(i as int, i + pat.len()) =~= pat@);
    true
}

/// Whether the character at index `i` is consumed as the second half of an
/// escape pair when `s` is scanned from its start: a backslash escapes the
/// character after it, unless it is itself escaped.
pub open spec fn escaped_before(s: Seq<char>, i: int) -> bool
    decreases i,
{
    if i <= 0 {
        false
    } else {
        !escaped_before(s, i - 1) && s[i - 1] == '\\'
    }
}

/// `s[i]` is the character `c`, not escaped by a preceding backslash.
pub open spec fn unescaped_at(s: Seq<char>, i: int, c: char) -> bool {
    0 <= i < s.len() && s[i] == c && !escaped_before(s, i)
}

/// The predicate "`c` occurs unescaped at this index of `s`".
pub open spec fn unescaped_pred(s: Seq<char>, c: char) -> spec_fn(int) -> bool {
    |i: int| unescaped_at(s, i, c)
}

/// The index of the first unescaped `c` in `s`.
pub open spec fn first_unescaped(s: Seq<char>, c: char) -> Option<int> {
    first_upto(unescaped_pred(s, c), s.len() as int)
}

/// Index, relative to `from`, of the first unescaped `c` in `s[from..]`
/// (scanning starts unescaped at `from`).
pub fn find_unescaped_from(s: &Vec<char>, from: usize, c: char) -> (r: Option<usize>)
    requires
        from <= s.len(),
        c != '\\',
    ensures
        match r {
            Some(i) => first_unescaped(s@.skip(from as int), c) == Some(i as int),
            None => first_unescaped(s@.skip(from as int), c) is None,
        },
{
    let ghost t = s@.skip(from as int);
    let mut escaped = false;
    let mut k: usize = 0;
    while from + k < s.len()
        invariant
            from <= s.len(),
            t == s@.skip(from as int),
            c != '\\',
            from + k <= s.len(),
            escaped == escaped_before(t, k as int),
            first_upto(unescaped_pred(t, c), k as int) is None,
        decreases s.len() - from - k,
    {
        let b = s[from + k];
        assert(t[k as int] == b);
        if escaped {
            escaped = false;
        } else if b == '\\' {
            escaped = true;
        } else if b == c {
            proof {
                lemma_first_upto(unescaped_pred(t, c), k as int);
                lemma_first_upto_at(unescaped_pred(t, c), t.len() as int, k as int);
            }
            return Some(k);
        }
        assert(!unescaped_pred(t, c)(k as int));
        k += 1;
    }
    None
}

/// Unicode `White_Space` characters (what `char::is_whitespace` accepts).
pub open spec fn is_ws(c: char) -> bool {
    let u = c as u32;
    (0x9 <= u && u <= 0xd) || u == 0x20 || u == 0x85 || u == 0xa0 || u == 0x1680 || (0x2000
        <= u && u <= 0x200a) || u == 0x2028 || u == 0x2029 || u == 0x202f || u == 0x205f || u
        == 0x3000
}

/// Whether `c` is a Unicode `White_Space` character.
pub fn is_ws_exec(c: char) -> (b: bool)
    ensures
        b == is_ws(c),
{
    let u = c as u32;
    (0x9 <= u && u <= 0xd) || u == 0x20 || u == 0x85 || u == 0xa0 || u == 0x1680 || (0x2000
        <= u && u <= 0x200a) || u == 0x2028 || u == 0x2029 || u == 0x202f || u == 0x205f || u
        == 0x3000
}

/// Number of leading whitespace characters of `s`.
pub open spec fn leading_ws(s: Seq<char>) -> nat
    decreases s.len(),
{
    if s.len() > 0 && is_ws(s[0]) {
        1 + leading_ws(s.drop_first())
    } else {
        0
    }
}

/// Number of trailing whitespace characters of `s`.
pub open spec fn trailing_ws(s: Seq<char>) -> nat
    decreases s.len(),
{
    if s.len() > 0 && is_ws(s.last()) {
        1 + trailing_ws(s.drop_last())
    } else {
        0
    }
}

/// `s` without its leading whitespace.
pub open spec fn trim_start(s: Seq<char>) -> Seq<char> {
    s.skip(leading_ws(s) as int)
}

/// `s` without its trailing whitespace.
pub open spec fn trim_end(s: Seq<char>) -> Seq<char> {
    s.take(s.len() - trailing_ws(s))
}

/// `s` without leading and trailing whitespace.
pub open spec fn trim(s: Seq<char>) -> Seq<char> {
    trim_end(trim_start(s))
}

proof fn lemma_leading_ws_exact(s: Seq<char>, k: int)
    requires
        0 <= k <= s.len(),
        forall|j: int| 0 <= j < k ==> is_ws(#[trigger] s[j]),
        k < s.len() ==> !is_ws(s[k]),
    ensures
        leading_ws(s) == k,
    decreases s.len(),
{
    if k > 0 {
        assert forall|j: int| 0 <= j < k - 1 implies is_ws(#[trigger] s.drop_first()[j]) by {
            assert(s.drop_first()[j] == s[j + 1]);
        }
        lemma_leading_ws_exact(s.drop_first(), k - 1);
    }
}

/// Text made only of whitespace trims to nothing at its start.
pub proof fn lemma_all_ws_trim_start(s: Seq<char>)
    requires
        forall|j: int| 0 <= j < s.len() ==> is_ws(#[trigger] s[j]),
    ensures
        trim_start(s).len() == 0,
{
    lemma_leading_ws_exact(s, s.len() as int);
}

/// Whitespace in front of text that starts with a non-whitespace character
/// is what trimming the start removes.
pub proof fn lemma_ws_prefix_trim_start(w: Seq<char>, r: Seq<char>)
    requires
        forall|j: int| 0 <= j < w.len() ==> is_ws(#[trigger] w[j]),
        r.len() > 0,
        !is_ws(r[0]),
    ensures
        trim_start(w + r) == r,
{
    let s = w + r;
    assert forall|j: int| 0 <= j < w.len() implies is_ws(#[trigger] s[j]) by {
        assert(s[j] == w[j]);
    }
    assert(s[w.len() as int] == r[0]);
    lemma_leading_ws_exact(s, w.len() as int);
    assert(s.skip(w.len() as int) =~= r);
}

proof fn lemma_trailing_ws_exact(s: Seq<char>, k: int)
    requires
        0 <= k <= s.len(),
        forall|j: int| s.len() - k <= j < s.len() ==> is_ws(#[trigger] s[j]),
        k < s.len() ==> !is_ws(s[s.len() - k - 1]),
    ensures
        trailing_ws(s) == k,
    decreases s.len(),
{
    if k > 0 {
        assert forall|j: int| s.drop_last().len() - (k - 1) <= j < s.drop_last().len() implies is_ws(
            #[trigger] s.drop_last()[j],
        ) by {
            assert(s.drop_last()[j] == s[j]);
        }
        lemma_trailing_ws_exact(s.drop_last(), k - 1);
    }
}

/// Index of the first non-whitespace character of `s[from..to]`, or `to`.
pub fn skip_ws_from(s: &Vec<char>, from: usize, to: usize) -> (r: usize)
    requires
        from <= to <= s.len(),
    ensures
        from <= r <= to,
        r - from == leading_ws(s@.subrange(from as int, to as int)),
{
    let ghost t = s@.subrange(from as int, to as int);
    let mut i = from;
    while i < to && is_ws_exec(s[i])
        invariant
            from <= i <= to <= s.len(),
            t == s@.subrange(from as int, to as int),
            forall|j: int| 0 <= j < i - from ==> is_ws(#[trigger] t[j]),
        decreases to - i,
    {
        assert(t[i - from] == s@[i as int]);
        i += 1;
    }
    proof {
        if i < to {
            assert(t[i - from] == s@[i as int]);
        }
        lemma_leading_ws_exact(t, i - from);
    }
    i
}

/// End index of `s[from..to]` once its trailing whitespace is removed.
pub fn trim_ws_end(s: &Vec<char>, from: usize, to: usize) -> (r: usize)
    requires
        from <= to <= s.len(),
    ensures
        from <= r <= to,
        to - r == trailing_ws(s@.subrange(from as int, to as int)),
{
    let ghost t = s@.subrange(from as int, to as int);
    let mut i = to;
    while i > from && is_ws_exec(s[i - 1])
        invariant
            from <= i <= to <= s.len(),
            t == s@.subrange(from as int, to as int),
            forall|j: int| i - from <= j < t.len() ==> is_ws(#[trigger] t[j]),
        decreases i - from,
    {
        assert(t[i - 1 - from] == s@[i - 1]);
        i -= 1;
    }
    proof {
        if i > from {
            assert(t[i - 1 - from] == s@[i - 1]);
        }
        lemma_trailing_ws_exact(t, to - i);
    }
    i
}

/// Appends the characters `src[from..to]` to the string `dst`.
pub fn append_range(dst: &mut String, src: &Vec<char>, from: usize, to: usize)
    requires
        from <= to <= src.len(),
    ensures
        final(dst)@ == old(dst)@ + src@.subrange(from as int, to as int),
{
    let mut i: usize = from;
    while i < to
        invariant
            from <= i <= to <= src.len(),
            dst@ == old(dst)@ + src@.subrange(from as int, i as int),
        decreases to - i,
    {
        push_char(dst, src[i]);
        i += 1;
        assert(dst@ =~= old(dst)@ + src@.subrange(from as int, i as int));
    }
}

// ---------------------------------------------------------------------------
// Byte offsets
// ---------------------------------------------------------------------------
/// Length in bytes of the UTF-8 encoding of `s`.
pub open spec fn byte_len(s: Seq<char>) -> nat {
    vstd::utf8::encode_utf8(s).len()
}

/// The byte offset, in the UTF-8 encoding of `s`, of the character at index `i`.
pub open spec fn byte_offset(s: Seq<char>, i: int) -> nat {
    byte_len(s.take(i))
}

/// `b` is the byte offset of some character position of `s` (its end included).
pub open spec fn is_char_start(s: Seq<char>, b: int) -> bool {
    exists|i: int| 0 <= i <= s.len() && byte_offset(s, i) == b
}

/// The character position whose byte offset in `s` is `b`.
pub open spec fn char_pos(s: Seq<char>, b: int) -> int {
    choose|i: int| 0 <= i <= s.len() && byte_offset(s, i) == b
}

/// Encoding a concatenation concatenates the encodings.
pub proof fn lemma_encode_concat(a: Seq<char>, b: Seq<char>)
    ensures
        vstd::utf8::encode_utf8(a + b) == vstd::utf8::encode_utf8(a) + vstd::utf8::encode_utf8(b),
    decreases a.len(),
{
    if a.len() == 0 {
        assert(a + b =~= b);
        assert(vstd::utf8::encode_utf8(a) + vstd::utf8::encode_utf8(b) =~= vstd::utf8::encode_utf8(
            b,
        ));
    } else {
        assert((a + b).drop_first() =~= a.drop_first() + b);
        assert((a + b)[0] == a[0]);
        lemma_encode_concat(a.drop_first(), b);
        let e = vstd::utf8::encode_scalar(a[0] as u32);
        assert(e + (vstd::utf8::encode_utf8(a.drop_first()) + vstd::utf8::encode_utf8(b)) =~= (e
            + vstd::utf8::encode_utf8(a.drop_first())) + vstd::utf8::encode_utf8(b));
    }
}

/// The number of bytes of the UTF-8 encoding of `c`.
pub fn utf8_width(c: char) -> (w: usize)
    ensures
        w == vstd::utf8::encode_scalar(c as u32).len(),
        1 <= w <= 4,
{
    proof {
        vstd::utf8::char_is_scalar(c);
    }
    let u = c as u32;
    if u <= 0x7f {
        1
    } else if u <= 0x7ff {
        2
    } else if u <= 0xffff {
        3
    } else {
        4
    }
}

/// Each character adds its own width to the byte offset.
pub proof fn lemma_byte_offset_step(s: Seq<char>, i: int)
    requires
        0 <= i < s.len(),
    ensures
        byte_offset(s, i + 1) == byte_offset(s, i) + vstd::utf8::encode_scalar(s[i] as u32).len(),
        vstd::utf8::encode_scalar(s[i] as u32).len() >= 1,
{
    assert(s.take(i + 1) =~= s.take(i) + seq![s[i]]);
    lemma_encode_concat(s.take(i), seq![s[i]]);
    let t = seq![s[i]];
    assert(t.drop_first() =~= Seq::<char>::empty());
    assert(t[0] == s[i]);
    let e = vstd::utf8::encode_scalar(s[i] as u32);
    assert(vstd::utf8::encode_utf8(t.drop_first()) =~= Seq::<u8>::empty());
    assert(e + Seq::<u8>::empty() =~= e);
    assert(vstd::utf8::encode_utf8(t) == e);
    vstd::utf8::char_is_scalar(s[i]);
}

/// Byte offsets grow by at least one per character.
pub proof fn lemma_byte_offset_mono(s: Seq<char>, i: int, j: int)
    requires
        0 <= i <= j <= s.len(),
    ensures
        byte_offset(s, i) + (j - i) <= byte_offset(s, j),
    decreases j - i,
{
    if i < j {
        lemma_byte_offset_mono(s, i, j - 1);
        lemma_byte_offset_step(s, j - 1);
    }
}

/// The position of a character start is determined by its byte offset.
pub proof fn lemma_char_pos(s: Seq<char>, b: int)
    requires
        is_char_start(s, b),
    ensures
        0 <= char_pos(s, b) <= s.len(),
        byte_offset(s, char_pos(s, b)) == b,
        forall|i: int| 0 <= i <= s.len() && byte_offset(s, i) == b ==> i == char_pos(s, b),
{
    let c = char_pos(s, b);
    assert forall|i: int| 0 <= i <= s.len() && byte_offset(s, i) == b implies i == c by {
        if i < c {
            lemma_byte_offset_mono(s, i, c);
        } else if c < i {
            lemma_byte_offset_mono(s, c, i);
        }
    }
}

/// The byte offset of the character at index `i` of `v`.
pub fn byte_offset_of(v: &Vec<char>, i: usize) -> (b: usize)
    requires
        i <= v.len(),
        byte_len(v@) <= usize::MAX,
    ensures
        b == byte_offset(v@, i as int),
{
    let mut k: usize = 0;
    let mut acc: usize = 0;
    assert(v@.take(0) =~= Seq::<char>::empty());
    assert(v@.take(v.len() as int) =~= v@);
    while k < i
        invariant
            k <= i <= v.len(),
            byte_len(v@) <= usize::MAX,
            acc == byte_offset(v@, k as int),
            byte_offset(v@, v.len() as int) == byte_len(v@),
        decreases i - k,
    {
        proof {
            lemma_byte_offset_step(v@, k as int);
            lemma_byte_offset_mono(v@, k + 1, v.len() as int);
        }
        acc = acc + utf8_width(v[k]);
        k += 1;
    }
    acc
}

/// The character position of `v` whose byte offset is `b`, if there is one.
pub fn char_index_of(v: &Vec<char>, b: usize) -> (r: Option<usize>)
    requires
        byte_len(v@) <= usize::MAX,
    ensures
        match r {
            Some(i) => i <= v.len() && byte_offset(v@, i as int) == b && is_char_start(v@, b as int)
                && char_pos(v@, b as int) == i,
            None => !is_char_start(v@, b as int),
        },
{
    let mut k: usize = 0;
    let mut acc: usize = 0;
    assert(v@.take(0) =~= Seq::<char>::empty());
    assert(v@.take(v.len() as int) =~= v@);
    while k < v.len() && acc < b
        invariant
            k <= v.len(),
            byte_len(v@) <= usize::MAX,
            acc == byte_offset(v@, k as int),
            byte_offset(v@, v.len() as int) == byte_len(v@),
            forall|j: int| 0 <= j < k ==> byte_offset(v@, j) < b,
        decreases v.len() - k,
    {
        proof {
            lemma_byte_offset_step(v@, k as int);
            lemma_byte_offset_mono(v@, k + 1, v.len() as int);
        }
        acc = acc + utf8_width(v[k]);
        k += 1;
    }
    if acc == b {
        proof {
            lemma_char_pos(v@, b as int);
        }
        Some(k)
    } else {
        proof {
            assert forall|j: int| 0 <= j <= v.len() && byte_offset(v@, j) == b implies false by {
                if j > k {
                    lemma_byte_offset_mono(v@, k as int, j);
                } else if j == k {
                } else {
                }
            }
        }
        None
    }
}

// ---------------------------------------------------------------------------
// Backslash runs
// ---------------------------------------------------------------------------
/// Number of backslashes directly before index `p`.
pub open spec fn backslash_run(s: Seq<char>, p: int) -> nat
    decreases p,
{
    if p <= 0 || p > s.len() || s[p - 1] != '\\' {
        0
    } else {
        1 + backslash_run(s, p - 1)
    }
}

/// A backslash at `p` is active: it is preceded by an even number of
/// backslashes, so it is not itself escaped.
pub open spec fn active_at(s: Seq<char>, p: int) -> bool {
    backslash_run(s, p) % 2 == 0
}

/// Whether the backslash at `pos` is active.
pub fn is_active_escape_start(s: &Vec<char>, pos: usize) -> (b: bool)
    requires
        pos <= s.len(),
    ensures
        b == active_at(s@, pos as int),
{
    let mut count: usize = 0;
    let mut idx = pos;
    while idx > 0 && s[idx - 1] == '\\'
        invariant
            idx <= pos <= s.len(),
            count == pos - idx,
            backslash_run(s@, pos as int) == count + backslash_run(s@, idx as int),
        decreases idx,
    {
        count += 1;
        idx -= 1;
    }
    count % 2 == 0
}

} // verus!
