//! Virtual machine: execution engine and main loop.
use vstd::prelude::*;
use crate::error::{result_view, Error, ErrorView};
use crate::primitives::{
    execute_c, print_payload, reflect_payload, spec_execute_r, spec_print_payload, spec_serialize,
};
use crate::rule::{rules_view, KeyView, RhsPrefix, Rule, RuleKey, RuleView};
use crate::tape::{format_g_input, spec_format_g_input, splice, Tape};
use crate::text::{
    active_at, backslash_run, byte_len, byte_offset, byte_offset_of, chars_of,
    find_unescaped_from, first_unescaped, first_upto, is_active_escape_start, lemma_first_upto,
    lemma_first_upto_at, matches_at, matches_at_exec, string_of,
};

verus! {

broadcast use vstd::string::group_string_axioms;

// ---------------------------------------------------------------------------
// Escape-token boundaries
// ---------------------------------------------------------------------------
/// Length of the indivisible token that starts at `i`: a two-character
/// escape `\X`, a `<...>` capsule up to the first unescaped `>`, or a single
/// character.
pub open spec fn token_len(s: Seq<char>, i: int) -> int {
    if s[i] == '\\' {
        if i + 1 < s.len() {
            2
        } else {
            1
        }
    } else if s[i] == '<' {
        match first_unescaped(s.skip(i + 1), '>') {
            Some(g) => g + 2,
            None => 1,
        }
    } else {
        1
    }
}

pub proof fn lemma_token_len(s: Seq<char>, i: int)
    requires
        0 <= i < s.len(),
    ensures
        1 <= token_len(s, i) <= s.len() - i,
{
    if s[i] == '<' {
        lemma_first_upto(crate::text::unescaped_pred(s.skip(i + 1), '>'), s.skip(i + 1).len() as int);
    }
}

/// `k` is the start of a token when `s` is cut into tokens from index `i`.
pub open spec fn token_start_from(s: Seq<char>, i: int, k: int) -> bool
    decreases s.len() - i,
{
    if i < 0 || i >= s.len() {
        false
    } else {
        proof {
            lemma_token_len(s, i);
        }
        k == i || token_start_from(s, i + token_len(s, i), k)
    }
}

/// `k` is a token boundary of `s`: the start of a token or the end of `s`.
pub open spec fn is_boundary(s: Seq<char>, k: int) -> bool {
    k == s.len() || token_start_from(s, 0, k)
}

pub proof fn lemma_token_start_ge(s: Seq<char>, i: int, k: int)
    requires
        token_start_from(s, i, k),
    ensures
        i <= k,
    decreases s.len() - i,
{
    lemma_token_len(s, i);
    if k != i {
        lemma_token_start_ge(s, i + token_len(s, i), k);
    }
}

/// Token starts of `tape`: `b[k]` holds exactly when `k` starts a token.
fn escape_boundaries(s: &Vec<char>) -> (b: Vec<bool>)
    ensures
        b.len() == s.len(),
        forall|k: int| 0 <= k < s.len() ==> b[k] == token_start_from(s@, 0, k),
{
    let n = s.len();
    let mut b: Vec<bool> = Vec::new();
    while b.len() < n
        invariant
            b.len() <= n,
            forall|k: int| 0 <= k < b.len() ==> !b[k],
        decreases n - b.len(),
    {
        b.push(false);
    }
    let mut i: usize = 0;
    while i < n
        invariant
            n == s.len(),
            b.len() == n,
            i <= n,
            forall|k: int| 0 <= k < i ==> b[k] == token_start_from(s@, 0, k),
            forall|k: int| i <= k < n ==> !b[k],
            forall|k: int| i <= k ==> (token_start_from(s@, 0, k) <==> token_start_from(s@, i as int, k)),
        decreases n - i,
    {
        proof {
            lemma_token_len(s@, i as int);
        }
        let l = token_len_exec(s, i);
        b.set(i, true);
        assert forall|k: int| i + l <= k implies (token_start_from(s@, 0, k) <==> token_start_from(
            s@,
            i + l,
            k,
        )) by {
            assert(token_start_from(s@, i as int, k) == (k == i || token_start_from(
                s@,
                i + l,
                k,
            )));
        }
        assert forall|k: int| i <= k < i + l implies b[k] == token_start_from(s@, 0, k) by {
            assert(token_start_from(s@, i as int, k) == (k == i || token_start_from(
                s@,
                i + l,
                k,
            )));
            if k != i && token_start_from(s@, i + l, k) {
                lemma_token_start_ge(s@, i + l, k);
            }
        }
        i += l;
    }
    b
}

/// Length of the token starting at `i`.
fn token_len_exec(s: &Vec<char>, i: usize) -> (l: usize)
    requires
        i < s.len(),
    ensures
        l == token_len(s@, i as int),
{
    if s[i] == '\\' {
        if i + 1 < s.len() {
            2
        } else {
            1
        }
    } else if s[i] == '<' {
        match find_unescaped_from(s, i + 1, '>') {
            Some(g) => {
                proof {
                    lemma_first_upto(
                        crate::text::unescaped_pred(s@.skip(i + 1), '>'),
                        s@.skip(i + 1).len() as int,
                    );
                }
                g + 2
            },
            None => 1,
        }
    } else {
        1
    }
}

/// Whether `k` is a token boundary, given the token starts `b`.
fn boundary_at(s: &Vec<char>, b: &Vec<bool>, k: usize) -> (r: bool)
    requires
        b.len() == s.len(),
        forall|j: int| 0 <= j < s.len() ==> b[j] == token_start_from(s@, 0, j),
        k <= s.len(),
    ensures
        r == is_boundary(s@, k as int),
{
    k == s.len() || b[k]
}

// ---------------------------------------------------------------------------
// Rule matching
// ---------------------------------------------------------------------------
/// The predicate "the LHS `lhs` occurs at this index of `tape`, starting and
/// ending on token boundaries".
pub open spec fn plain_pred(tape: Seq<char>, lhs: Seq<char>) -> spec_fn(int) -> bool {
    |a: int| matches_at(tape, a, lhs) && is_boundary(tape, a) && is_boundary(tape, a + lhs.len())
}

/// Where a rule with key `key` matches `tape`:
/// with `(start)`, at the start (and, with `(end)`, the whole tape);
/// with `(end)` only, at the end; otherwise at the leftmost occurrence that
/// starts and ends on token boundaries.
pub open spec fn spec_match_rule(tape: Seq<char>, key: KeyView) -> Option<(int, int)> {
    let n = tape.len() as int;
    let m = key.lhs.len() as int;
    if key.has_start {
        if matches_at(tape, 0, key.lhs) && is_boundary(tape, m) && (!key.has_end || m == n) {
            Some((0, m))
        } else {
            None
        }
    } else if key.has_end {
        if m <= n && matches_at(tape, n - m, key.lhs) && is_boundary(tape, n - m) {
            Some((n - m, n))
        } else {
            None
        }
    } else {
        match first_upto(plain_pred(tape, key.lhs), n - m + 1) {
            Some(a) => Some((a, a + m)),
            None => None,
        }
    }
}

/// Where a rule with LHS `lhs` and the given anchors matches `tape`.
fn match_rule(tape: &Vec<char>, b: &Vec<bool>, lhs: &Vec<char>, has_start: bool, has_end: bool) -> (r:
    Option<(usize, usize)>)
    requires
        b.len() == tape.len(),
        forall|j: int| 0 <= j < tape.len() ==> b[j] == token_start_from(tape@, 0, j),
    ensures
        match spec_match_rule(
            tape@,
            KeyView { lhs: lhs@, has_start, has_end, has_once: false },
        ) {
            Some((x, y)) => r == Some((x as usize, y as usize)) && 0 <= x <= y <= tape.len(),
            None => r is None,
        },
{
    let n = tape.len();
    let m = lhs.len();
    if has_start {
        if matches_at_exec(tape, 0, lhs) && boundary_at(tape, b, m) && (!has_end || m == n) {
            return Some((0, m));
        }
        return None;
    }
    if has_end {
        if m <= n && matches_at_exec(tape, n - m, lhs) && boundary_at(tape, b, n - m) {
            return Some((n - m, n));
        }
        return None;
    }
    if m > n {
        return None;
    }
    let last = n - m;
    let mut a: usize = 0;
    loop
        invariant
            n == tape.len(),
            m == lhs.len(),
            !has_start,
            !has_end,
            last == n - m,
            a <= last,
            b.len() == tape.len(),
            forall|j: int| 0 <= j < tape.len() ==> b[j] == token_start_from(tape@, 0, j),
            first_upto(plain_pred(tape@, lhs@), a as int) is None,
        decreases last - a,
    {
        if matches_at_exec(tape, a, lhs) && boundary_at(tape, b, a) && boundary_at(tape, b, a + m) {
            proof {
                lemma_first_upto(plain_pred(tape@, lhs@), a as int);
                lemma_first_upto_at(plain_pred(tape@, lhs@), last + 1, a as int);
            }
            return Some((a, a + m));
        }
        assert(!plain_pred(tape@, lhs@)(a as int));
        if a == last {
            return None;
        }
        a += 1;
    }
}

// ---------------------------------------------------------------------------
// Primitive scanning
// ---------------------------------------------------------------------------
/// If an active block primitive `prefix...}` starts at `p`, where it ends
/// (just after its first unescaped `}`).
pub open spec fn block_end_at(s: Seq<char>, p: int, prefix: Seq<char>) -> Option<int> {
    if matches_at(s, p, prefix) && active_at(s, p) {
        match first_unescaped(s.skip(p + prefix.len()), '}') {
            Some(e) => Some(p + prefix.len() + e + 1),
            None => None,
        }
    } else {
        None
    }
}

/// The predicate "an active block primitive `prefix...}` starts here".
pub open spec fn block_pred(s: Seq<char>, prefix: Seq<char>) -> spec_fn(int) -> bool {
    |p: int| block_end_at(s, p, prefix) is Some
}

/// The leftmost active block primitive `prefix...}` of `s`.
pub open spec fn spec_scan_block(s: Seq<char>, prefix: Seq<char>) -> Option<(int, int)> {
    match first_upto(block_pred(s, prefix), s.len() as int + 1) {
        Some(p) => Some((p, block_end_at(s, p, prefix)->0)),
        None => None,
    }
}

/// The predicate "an active occurrence of `pat` starts here".
pub open spec fn simple_pred(s: Seq<char>, pat: Seq<char>) -> spec_fn(int) -> bool {
    |p: int| matches_at(s, p, pat) && active_at(s, p)
}

/// The leftmost active occurrence of `pat` in `s`.
pub open spec fn spec_scan_simple(s: Seq<char>, pat: Seq<char>) -> Option<(int, int)> {
    match first_upto(simple_pred(s, pat), s.len() as int + 1) {
        Some(p) => Some((p, p + pat.len())),
        None => None,
    }
}

/// The leftmost active block primitive `prefix...}` of `s`.
fn scan_block_chars(s: &Vec<char>, prefix: &Vec<char>) -> (r: Option<(usize, usize)>)
    ensures
        match spec_scan_block(s@, prefix@) {
            Some((p, e)) => r == Some((p as usize, e as usize)) && 0 <= p < e <= s.len(),
            None => r is None,
        },
{
    let mut p: usize = 0;
    loop
        invariant
            p <= s.len(),
            first_upto(block_pred(s@, prefix@), p as int) is None,
        decreases s.len() - p,
    {
        if matches_at_exec(s, p, prefix) && is_active_escape_start(s, p) {
            let after = p + prefix.len();
            if let Some(e) = find_unescaped_from(s, after, '}') {
                proof {
                    lemma_first_upto(
                        crate::text::unescaped_pred(s@.skip(after as int), '}'),
                        s@.skip(after as int).len() as int,
                    );
                    lemma_first_upto(block_pred(s@, prefix@), p as int);
                    lemma_first_upto_at(block_pred(s@, prefix@), s.len() + 1, p as int);
                }
                return Some((p, after + e + 1));
            }
        }
        assert(!block_pred(s@, prefix@)(p as int));
        if p == s.len() {
            return None;
        }
        p += 1;
    }
}

/// The leftmost active occurrence of `pat` in `s`.
fn scan_simple_chars(s: &Vec<char>, pat: &Vec<char>) -> (r: Option<(usize, usize)>)
    ensures
        match spec_scan_simple(s@, pat@) {
            Some((p, e)) => r == Some((p as usize, e as usize)) && 0 <= p <= e <= s.len() && (
            pat.len() > 0 ==> p < e),
            None => r is None,
        },
{
    let mut p: usize = 0;
    loop
        invariant
            p <= s.len(),
            first_upto(simple_pred(s@, pat@), p as int) is None,
        decreases s.len() - p,
    {
        if matches_at_exec(s, p, pat) && is_active_escape_start(s, p) {
            proof {
                lemma_first_upto(simple_pred(s@, pat@), p as int);
                lemma_first_upto_at(simple_pred(s@, pat@), s.len() + 1, p as int);
            }
            return Some((p, p + pat.len()));
        }
        assert(!simple_pred(s@, pat@)(p as int));
        if p == s.len() {
            return None;
        }
        p += 1;
    }
}

/// The kinds of active primitive.
#[derive(Clone, Copy, Debug, PartialEq, Eq, Structural)]
pub enum PrimKind {
    /// `\p{...}`: output.
    P,
    /// `\r{...}`: reflection.
    R,
    /// `\g`: input.
    G,
    /// `\c`: introspection.
    C,
}

/// Keeps `a` unless `b` was found strictly further left.
pub open spec fn leftmost(a: Option<(int, int, PrimKind)>, b: Option<(int, int)>, k: PrimKind) -> Option<
    (int, int, PrimKind),
> {
    match b {
        None => a,
        Some((p, e)) => match a {
            Some((pa, ea, ka)) => if pa <= p {
                a
            } else {
                Some((p, e, k))
            },
            None => Some((p, e, k)),
        },
    }
}

pub open spec fn p_open() -> Seq<char> {
    seq!['\\', 'p', '{']
}

pub open spec fn r_open() -> Seq<char> {
    seq!['\\', 'r', '{']
}

pub open spec fn g_prim() -> Seq<char> {
    seq!['\\', 'g']
}

pub open spec fn c_prim() -> Seq<char> {
    seq!['\\', 'c']
}

/// The leftmost active primitive of `s` (on a tie, `\p`, then `\r`, then
/// `\g`, then `\c`).
pub open spec fn spec_leftmost_primitive(s: Seq<char>) -> Option<(int, int, PrimKind)> {
    let p = match spec_scan_block(s, p_open()) {
        Some((a, e)) => Some((a, e, PrimKind::P)),
        None => None,
    };
    let r = leftmost(p, spec_scan_block(s, r_open()), PrimKind::R);
    let g = leftmost(r, spec_scan_simple(s, g_prim()), PrimKind::G);
    leftmost(g, spec_scan_simple(s, c_prim()), PrimKind::C)
}

fn leftmost_kind(a: Option<(usize, usize, PrimKind)>, b: Option<(usize, usize)>, k: PrimKind) -> (r:
    Option<(usize, usize, PrimKind)>)
    ensures
        opt3_view(r) == leftmost(opt3_view(a), opt2_view(b), k),
{
    match b {
        None => a,
        Some((p, e)) => match a {
            Some((pa, _, _)) => if pa <= p {
                a
            } else {
                Some((p, e, k))
            },
            None => Some((p, e, k)),
        },
    }
}

pub open spec fn opt2_view(a: Option<(usize, usize)>) -> Option<(int, int)> {
    match a {
        Some((x, y)) => Some((x as int, y as int)),
        None => None,
    }
}

pub open spec fn opt3_view(a: Option<(usize, usize, PrimKind)>) -> Option<(int, int, PrimKind)> {
    match a {
        Some((x, y, k)) => Some((x as int, y as int, k)),
        None => None,
    }
}

/// The leftmost active primitive of `s`.
fn leftmost_primitive(s: &Vec<char>) -> (r: Option<(usize, usize, PrimKind)>)
    ensures
        opt3_view(r) == spec_leftmost_primitive(s@),
        r matches Some((a, e, k)) ==> a < e <= s.len() && (k == PrimKind::P || k == PrimKind::R
            ==> a + 4 <= e),
{
    let po: Vec<char> = vec!['\\', 'p', '{'];
    let ro: Vec<char> = vec!['\\', 'r', '{'];
    let gp: Vec<char> = vec!['\\', 'g'];
    let cp: Vec<char> = vec!['\\', 'c'];
    assert(po@ =~= p_open());
    assert(ro@ =~= r_open());
    assert(gp@ =~= g_prim());
    assert(cp@ =~= c_prim());
    let bp = scan_block_chars(s, &po);
    let best = match bp {
        Some((a, e)) => Some((a, e, PrimKind::P)),
        None => None,
    };
    let best = leftmost_kind(best, scan_block_chars(s, &ro), PrimKind::R);
    let best = leftmost_kind(best, scan_simple_chars(s, &gp), PrimKind::G);
    let best = leftmost_kind(best, scan_simple_chars(s, &cp), PrimKind::C);
    proof {
        // Block primitives span at least their opening and closing braces.
        if let Some((a, e)) = spec_scan_block(s@, p_open()) {
            lemma_first_upto(block_pred(s@, p_open()), s.len() + 1);
            lemma_first_upto(
                crate::text::unescaped_pred(s@.skip(a + 3), '}'),
                s@.skip(a + 3).len() as int,
            );
        }
        if let Some((a, e)) = spec_scan_block(s@, r_open()) {
            lemma_first_upto(block_pred(s@, r_open()), s.len() + 1);
            lemma_first_upto(
                crate::text::unescaped_pred(s@.skip(a + 3), '}'),
                s@.skip(a + 3).len() as int,
            );
        }
    }
    best
}

// ---------------------------------------------------------------------------
// Rule selection
// ---------------------------------------------------------------------------
/// The predicate "the rule at this index is live and matches `tape`".
pub open spec fn rule_pred(tape: Seq<char>, rules: Seq<RuleView>) -> spec_fn(int) -> bool {
    |i: int|
        0 <= i < rules.len() && !(rules[i].key.has_once && rules[i].used) && spec_match_rule(
            tape,
            rules[i].key,
        ) is Some
}

/// The first live rule (not a used `(once)` rule) that matches `tape`, with
/// the matched range.
pub open spec fn spec_find_rule(tape: Seq<char>, rules: Seq<RuleView>) -> Option<(int, int, int)> {
    match first_upto(rule_pred(tape, rules), rules.len() as int) {
        Some(i) => {
            let (a, b) = spec_match_rule(tape, rules[i].key)->0;
            Some((i, a, b))
        },
        None => None,
    }
}

/// The first live rule that matches `tape`.
fn find_first_rule_match(tape: &Vec<char>, rules: &Vec<Rule>) -> (r: Option<(usize, usize, usize)>)
    ensures
        match spec_find_rule(tape@, rules_view(rules@)) {
            Some((i, a, b)) => r == Some((i as usize, a as usize, b as usize)) && 0 <= i
                < rules.len() && 0 <= a <= b <= tape.len(),
            None => r is None,
        },
{
    let ghost rv = rules_view(rules@);
    let b = escape_boundaries(tape);
    let mut idx: usize = 0;
    while idx < rules.len()
        invariant
            idx <= rules.len(),
            rv == rules_view(rules@),
            b.len() == tape.len(),
            forall|j: int| 0 <= j < tape.len() ==> b[j] == token_start_from(tape@, 0, j),
            first_upto(rule_pred(tape@, rv), idx as int) is None,
        decreases rules.len() - idx,
    {
        let rule = &rules[idx];
        assert(rv[idx as int] == rule@);
        if !(rule.key.has_once && rule.used) {
            let lhs = chars_of(rule.key.lhs.as_str());
            let ghost key = KeyView {
                lhs: lhs@,
                has_start: rule.key.has_start,
                has_end: rule.key.has_end,
                has_once: false,
            };
            assert(spec_match_rule(tape@, key) == spec_match_rule(tape@, rule@.key));
            if let Some((a, e)) = match_rule(tape, &b, &lhs, rule.key.has_start, rule.key.has_end) {
                proof {
                    lemma_first_upto(rule_pred(tape@, rv), idx as int);
                    lemma_first_upto_at(rule_pred(tape@, rv), rv.len() as int, idx as int);
                }
                return Some((idx, a, e));
            }
        }
        assert(!rule_pred(tape@, rv)(idx as int));
        idx += 1;
    }
    None
}

// ---------------------------------------------------------------------------
// Machine state
// ---------------------------------------------------------------------------
/// What the machine asks of its host when `run` returns.
#[derive(Debug)]
pub enum Request {
    /// The machine halted; the tape holds the final text.
    Halted,
    /// Print this text followed by a newline, then call `run` again.
    Print(String),
    /// Read standard input to its end, hand it over with `supply_input`
    /// (`None` when it was already at its end), then call `run` again.
    ReadInput,
}

pub enum RequestView {
    Halted,
    Print(Seq<char>),
    ReadInput,
}

impl View for Request {
    type V = RequestView;

    open spec fn view(&self) -> RequestView {
        match self {
            Request::Halted => RequestView::Halted,
            Request::Print(s) => RequestView::Print(s@),
            Request::ReadInput => RequestView::ReadInput,
        }
    }
}

/// A primitive whose side effect is with the host: its tape range and what
/// replaces it once the host has done its part.
enum Pending {
    Edit { start: usize, end: usize, replacement: String },
    Input { start: usize, end: usize },
}

pub enum PendingView {
    /// Replace `[start, end)` by `replacement` (after consuming fuel).
    Edit { start: int, end: int, replacement: Seq<char> },
    /// Waiting for input for the `\g` at `[start, end)`.
    Input { start: int, end: int },
}

/// Execution engine for A=B^Reflect.
pub struct Vm {
    pub tape: Tape,
    pub rules: Vec<Rule>,
    fuel: u64,
    tape_limit: usize,
    step_count: u64,
    pending: Option<Pending>,
}

/// The mathematical state of a [`Vm`].
pub struct VmView {
    pub tape: Seq<char>,
    pub rules: Seq<RuleView>,
    pub fuel: u64,
    pub tape_limit: usize,
    pub step_count: u64,
    pub pending: Option<PendingView>,
}

impl View for Vm {
    type V = VmView;

    closed spec fn view(&self) -> VmView {
        VmView {
            tape: self.tape@,
            rules: rules_view(self.rules@),
            fuel: self.fuel,
            tape_limit: self.tape_limit,
            step_count: self.step_count,
            pending: match self.pending {
                Some(Pending::Edit { start, end, replacement }) => Some(
                    PendingView::Edit { start: start as int, end: end as int, replacement: replacement@ },
                ),
                Some(Pending::Input { start, end }) => Some(
                    PendingView::Input { start: start as int, end: end as int },
                ),
                None => None,
            },
        }
    }
}

/// A machine state that can be run: the step counter cannot overflow and a
/// pending primitive lies within the tape.
pub open spec fn vm_wf(v: VmView) -> bool {
    &&& v.fuel + v.step_count <= u64::MAX
    &&& match v.pending {
        Some(PendingView::Edit { start, end, replacement }) => 0 <= start <= end <= v.tape.len(),
        Some(PendingView::Input { start, end }) => 0 <= start <= end <= v.tape.len(),
        None => true,
    }
}

/// Byte length of the tape text, as the machine measures it.
pub open spec fn tape_bytes(t: Seq<char>) -> usize {
    byte_len(t) as usize
}

/// Result of one step: go on from a new state, or stop with an answer.
pub enum StepOut {
    Continue(VmView),
    Stop(VmView, Result<RequestView, ErrorView>),
}

/// `s` with `err` reported.
pub open spec fn fail(s: VmView, err: ErrorView) -> StepOut {
    StepOut::Stop(s, Err(err))
}

/// The fuel error for state `s`.
pub open spec fn fuel_error(s: VmView) -> ErrorView {
    ErrorView::FuelExceeded { steps: s.step_count }
}

/// The error for a tape `t` longer than `limit` bytes.
pub open spec fn overflow_error(t: Seq<char>, limit: usize) -> ErrorView {
    ErrorView::TapeOverflow { len: tape_bytes(t) as int, limit: limit as int }
}

/// One mutation (fuel available): fuel is consumed, the tape and rules
/// become `tape2` and `rules2`, and the tape size is checked.
pub open spec fn commit(s: VmView, tape2: Seq<char>, rules2: Seq<RuleView>) -> StepOut {
    let s2 = VmView {
        tape: tape2,
        rules: rules2,
        fuel: (s.fuel - 1) as u64,
        step_count: (s.step_count + 1) as u64,
        pending: None,
        ..s
    };
    if tape_bytes(tape2) > s.tape_limit {
        fail(s2, overflow_error(tape2, s.tape_limit))
    } else {
        StepOut::Continue(s2)
    }
}

/// Applying rule `i`, matched at `[a, b)` of the tape.
pub open spec fn apply_rule(s: VmView, i: int, a: int, b: int) -> StepOut {
    let rule = s.rules[i];
    if s.fuel == 0 {
        fail(s, fuel_error(s))
    } else {
        let rules2 = if rule.key.has_once {
            s.rules.update(i, RuleView { used: true, ..rule })
        } else {
            s.rules
        };
        let tape2 = match rule.rhs_prefix {
            RhsPrefix::Start => rule.rhs + splice(s.tape, a, b, seq![]),
            RhsPrefix::End => splice(s.tape, a, b, seq![]) + rule.rhs,
            _ => splice(s.tape, a, b, rule.rhs),
        };
        match commit(s, tape2, rules2) {
            StepOut::Continue(s2) => if rule.rhs_prefix == RhsPrefix::Halt {
                StepOut::Stop(s2, Ok(RequestView::Halted))
            } else {
                StepOut::Continue(s2)
            },
            other => other,
        }
    }
}

/// One iteration of the main loop: a pending primitive is finished first;
/// otherwise the leftmost active primitive is executed (phase 1), else the
/// first matching rule is applied (phase 2), else the machine halts (phase 3).
pub open spec fn spec_step(s: VmView) -> StepOut {
    match s.pending {
        Some(PendingView::Input { .. }) => StepOut::Stop(s, Ok(RequestView::ReadInput)),
        Some(PendingView::Edit { start, end, replacement }) => if s.fuel == 0 {
            fail(VmView { pending: None, ..s }, fuel_error(s))
        } else {
            commit(s, splice(s.tape, start, end, replacement), s.rules)
        },
        None => match spec_leftmost_primitive(s.tape) {
            Some((a, b, PrimKind::P)) => match spec_print_payload(s.tape, a, b) {
                Err(e) => fail(s, e),
                Ok(text) => StepOut::Stop(
                    VmView {
                        pending: Some(PendingView::Edit { start: a, end: b, replacement: seq![] }),
                        ..s
                    },
                    Ok(RequestView::Print(text)),
                ),
            },
            Some((a, b, PrimKind::G)) => StepOut::Stop(
                VmView { pending: Some(PendingView::Input { start: a, end: b }), ..s },
                Ok(RequestView::ReadInput),
            ),
            Some((a, b, PrimKind::R)) => match spec_execute_r(s.tape, a, b, s.rules) {
                Err(e) => fail(s, e),
                Ok(rules2) => if s.fuel == 0 {
                    fail(VmView { rules: rules2, ..s }, fuel_error(s))
                } else {
                    commit(s, splice(s.tape, a, b, seq![]), rules2)
                },
            },
            Some((a, b, PrimKind::C)) => if s.fuel == 0 {
                fail(s, fuel_error(s))
            } else {
                commit(s, splice(s.tape, a, b, spec_serialize(s.rules)), s.rules)
            },
            None => match spec_find_rule(s.tape, s.rules) {
                Some((i, a, b)) => apply_rule(s, i, a, b),
                None => StepOut::Stop(s, Ok(RequestView::Halted)),
            },
        },
    }
}

/// A step that goes on always consumes fuel.
pub proof fn lemma_step_decreases(s: VmView)
    ensures
        spec_step(s) matches StepOut::Continue(s2) ==> s2.fuel < s.fuel,
{
}

/// Running the machine from `s`: steps until it stops.
pub open spec fn spec_run(s: VmView) -> (VmView, Result<RequestView, ErrorView>)
    decreases s.fuel,
{
    match spec_step(s) {
        StepOut::Continue(s2) => {
            proof {
                lemma_step_decreases(s);
            }
            spec_run(s2)
        },
        StepOut::Stop(s2, r) => (s2, r),
    }
}

impl Vm {
    /// A machine with the given tape, rules, fuel and tape limit (in bytes),
    /// that has executed no step yet.
    pub fn new(tape: Tape, rules: Vec<Rule>, fuel: u64, tape_limit: usize) -> (vm: Self)
        ensures
            vm@ == (VmView {
                tape: tape@,
                rules: rules_view(rules@),
                fuel,
                tape_limit,
                step_count: 0,
                pending: None,
            }),
            vm_wf(vm@),
    {
        Vm { tape, rules, fuel, tape_limit, step_count: 0, pending: None }
    }

    /// Remaining fuel.
    pub fn fuel(&self) -> (f: u64)
        ensures
            f == self@.fuel,
    {
        self.fuel
    }

    /// Number of steps executed so far.
    pub fn step_count(&self) -> (n: u64)
        ensures
            n == self@.step_count,
    {
        self.step_count
    }

    /// The tape limit, in bytes.
    pub fn tape_limit(&self) -> (n: usize)
        ensures
            n == self@.tape_limit,
    {
        self.tape_limit
    }

    /// The tape.
    pub fn tape(&self) -> (t: &Tape)
        ensures
            t@ == self@.tape,
    {
        &self.tape
    }

    /// The rules, in order.
    pub fn rules(&self) -> (r: &Vec<Rule>)
        ensures
            rules_view(r@) == self@.rules,
    {
        &self.rules
    }

    /// Consumes one unit of fuel, or fails when none is left.
    fn consume_fuel(&mut self) -> (r: Result<(), Error>)
        requires
            vm_wf(old(self)@),
        ensures
            old(self)@.fuel == 0 ==> r is Err && r->Err_0@ == fuel_error(old(self)@)
                && final(self)@ == old(self)@,
            old(self)@.fuel > 0 ==> r is Ok && final(self)@ == (VmView {
                fuel: (old(self)@.fuel - 1) as u64,
                step_count: (old(self)@.step_count + 1) as u64,
                ..old(self)@
            }),
    {
        if self.fuel == 0 {
            return Err(Error::FuelExceeded { steps: self.step_count });
        }
        self.fuel -= 1;
        self.step_count += 1;
        Ok(())
    }

    /// Fails when the tape is longer than the limit.
    fn check_tape_limit(&self) -> (r: Result<(), Error>)
        ensures
            tape_bytes(self@.tape) > self@.tape_limit ==> r is Err && r->Err_0@ == overflow_error(
                self@.tape,
                self@.tape_limit,
            ),
            tape_bytes(self@.tape) <= self@.tape_limit ==> r is Ok,
    {
        let len = self.tape.len();
        if len > self.tape_limit {
            Err(Error::TapeOverflow { len, limit: self.tape_limit })
        } else {
            Ok(())
        }
    }

    /// Consumes fuel, replaces `[start, end)` of the tape and checks the limit.
    fn commit_edit(&mut self, start: usize, end: usize, replacement: &str) -> (r: Option<
        Result<Request, Error>,
    >)
        requires
            vm_wf(old(self)@),
            old(self)@.fuel > 0,
            old(self)@.pending is None,
            start <= end <= old(self)@.tape.len(),
        ensures
            vm_wf(final(self)@),
            match commit(
                old(self)@,
                splice(old(self)@.tape, start as int, end as int, replacement@),
                old(self)@.rules,
            ) {
                StepOut::Continue(s2) => r is None && final(self)@ == s2,
                StepOut::Stop(s2, res) => r is Some && final(self)@ == s2 && result_view(r->0)
                    == res,
            },
    {
        match self.consume_fuel() {
            Ok(_) => {},
            Err(e) => return Some(Err(e)),
        }
        self.tape.splice_chars(start, end, replacement);
        match self.check_tape_limit() {
            Ok(_) => None,
            Err(e) => Some(Err(e)),
        }
    }

    /// Applies rule `i`, which matches the tape at `[a, b)`.
    fn apply_rule_at(&mut self, i: usize, a: usize, b: usize) -> (r: Option<Result<Request, Error>>)
        requires
            vm_wf(old(self)@),
            old(self)@.pending is None,
            i < old(self)@.rules.len(),
            a <= b <= old(self)@.tape.len(),
        ensures
            vm_wf(final(self)@),
            match apply_rule(old(self)@, i as int, a as int, b as int) {
                StepOut::Continue(s2) => r is None && final(self)@ == s2,
                StepOut::Stop(s2, res) => r is Some && final(self)@ == s2 && result_view(r->0)
                    == res,
            },
    {
        match self.consume_fuel() {
            Ok(_) => {},
            Err(e) => return Some(Err(e)),
        }
        let ghost rv = self@.rules;
        assert(rv[i as int] == self.rules@[i as int]@);
        let rhs = self.rules[i].rhs.clone();
        let prefix = self.rules[i].rhs_prefix;
        if self.rules[i].key.has_once {
            let old_rule = &self.rules[i];
            let key = RuleKey {
                lhs: old_rule.key.lhs.clone(),
                has_start: old_rule.key.has_start,
                has_end: old_rule.key.has_end,
                has_once: old_rule.key.has_once,
            };
            let updated = Rule { key, rhs: old_rule.rhs.clone(), rhs_prefix: old_rule.rhs_prefix, used: true };
            self.rules.set(i, updated);
            assert(rules_view(self.rules@) =~= rv.update(i as int, RuleView { used: true, ..rv[i as int] }));
        }
        proof {
            reveal_strlit("");
        }
        let ghost t0 = self@.tape;
        let ghost rule = rv[i as int];
        match prefix {
            RhsPrefix::Start => {
                self.tape.splice_chars(a, b, "");
                self.tape.insert_start(rhs.as_str());
            },
            RhsPrefix::End => {
                self.tape.splice_chars(a, b, "");
                self.tape.insert_end(rhs.as_str());
            },
            _ => {
                self.tape.splice_chars(a, b, rhs.as_str());
            },
        }
        assert(self@.tape =~= match rule.rhs_prefix {
            RhsPrefix::Start => rule.rhs + splice(t0, a as int, b as int, seq![]),
            RhsPrefix::End => splice(t0, a as int, b as int, seq![]) + rule.rhs,
            _ => splice(t0, a as int, b as int, rule.rhs),
        });
        match self.check_tape_limit() {
            Ok(_) => {},
            Err(e) => return Some(Err(e)),
        }
        match prefix {
            RhsPrefix::Halt => Some(Ok(Request::Halted)),
            _ => None,
        }
    }
}

impl Vm {
    /// One iteration of the main loop (see [`spec_step`]). `None` means the
    /// machine goes on; `Some` carries what `run` answers.
    pub fn step(&mut self) -> (r: Option<Result<Request, Error>>)
        requires
            vm_wf(old(self)@),
        ensures
            vm_wf(final(self)@),
            match spec_step(old(self)@) {
                StepOut::Continue(s2) => r is None && final(self)@ == s2,
                StepOut::Stop(s2, res) => r is Some && final(self)@ == s2 && result_view(r->0)
                    == res,
            },
    {
        let pending = self.pending.take();
        match pending {
            Some(Pending::Input { start, end }) => {
                self.pending = Some(Pending::Input { start, end });
                return Some(Ok(Request::ReadInput));
            },
            Some(Pending::Edit { start, end, replacement }) => {
                if self.fuel == 0 {
                    return Some(Err(Error::FuelExceeded { steps: self.step_count }));
                }
                return self.commit_edit(start, end, replacement.as_str());
            },
            None => {},
        }
        let t = chars_of(self.tape.as_str());
        match leftmost_primitive(&t) {
            Some((a, b, PrimKind::P)) => match print_payload(&t, a, b) {
                Err(e) => Some(Err(e)),
                Ok(text) => {
                    self.pending = Some(Pending::Edit { start: a, end: b, replacement: String::new() });
                    Some(Ok(Request::Print(string_of(&text))))
                },
            },
            Some((a, b, PrimKind::G)) => {
                self.pending = Some(Pending::Input { start: a, end: b });
                Some(Ok(Request::ReadInput))
            },
            Some((a, b, PrimKind::R)) => self.reflect(&t, a, b),
            Some((a, b, PrimKind::C)) => self.introspect(a, b),
            None => match find_first_rule_match(&t, &self.rules) {
                None => Some(Ok(Request::Halted)),
                Some((i, a, b)) => self.apply_rule_at(i, a, b),
            },
        }
    }

    /// Executes the reflection primitive at `[a, b)`.
    fn reflect(&mut self, t: &Vec<char>, a: usize, b: usize) -> (r: Option<Result<Request, Error>>)
        requires
            t@ == old(self)@.tape,
            vm_wf(old(self)@),
            old(self)@.pending is None,
            a + 4 <= b <= old(self)@.tape.len(),
        ensures
            vm_wf(final(self)@),
            match spec_execute_r(old(self)@.tape, a as int, b as int, old(self)@.rules) {
                Err(e) => r is Some && r->0 is Err && r->0->Err_0@ == e
                    && final(self)@ == old(self)@,
                Ok(rules2) => if old(self)@.fuel == 0 {
                    r is Some && r->0 is Err && r->0->Err_0@ == fuel_error(old(self)@)
                        && final(self)@ == (VmView { rules: rules2, ..old(self)@ })
                } else {
                    match commit(old(self)@, splice(old(self)@.tape, a as int, b as int, seq![]), rules2) {
                        StepOut::Continue(s2) => r is None && final(self)@ == s2,
                        StepOut::Stop(s2, res) => r is Some && final(self)@ == s2 && result_view(
                            r->0,
                        ) == res,
                    }
                },
            },
    {
        let mut payload: Vec<char> = Vec::new();
        crate::text::push_range(&mut payload, t, a + 3, b - 1);
        match reflect_payload(&payload, &mut self.rules) {
            Ok(_) => {},
            Err(e) => return Some(Err(e)),
        }
        if self.fuel == 0 {
            return Some(Err(Error::FuelExceeded { steps: self.step_count }));
        }
        proof {
            reveal_strlit("");
        }
        self.commit_edit(a, b, "")
    }

    /// Executes the introspection primitive at `[a, b)`.
    fn introspect(&mut self, a: usize, b: usize) -> (r: Option<Result<Request, Error>>)
        requires
            vm_wf(old(self)@),
            old(self)@.pending is None,
            a <= b <= old(self)@.tape.len(),
        ensures
            vm_wf(final(self)@),
            old(self)@.fuel == 0 ==> r is Some && r->0 is Err && r->0->Err_0@ == fuel_error(
                old(self)@,
            ) && final(self)@ == old(self)@,
            old(self)@.fuel > 0 ==> match commit(
                old(self)@,
                splice(old(self)@.tape, a as int, b as int, spec_serialize(old(self)@.rules)),
                old(self)@.rules,
            ) {
                StepOut::Continue(s2) => r is None && final(self)@ == s2,
                StepOut::Stop(s2, res) => r is Some && final(self)@ == s2 && result_view(r->0)
                    == res,
            },
    {
        let text = match execute_c(self.rules.as_slice()) {
            Ok(x) => x,
            Err(e) => return Some(Err(e)),
        };
        if self.fuel == 0 {
            return Some(Err(Error::FuelExceeded { steps: self.step_count }));
        }
        self.commit_edit(a, b, text.as_str())
    }

    /// Run the machine until it halts, fails, or needs its host to print or
    /// to read input (see [`spec_run`]).
    pub fn run(&mut self) -> (r: Result<Request, Error>)
        requires
            vm_wf(old(self)@),
        ensures
            vm_wf(final(self)@),
            (final(self)@, result_view(r)) == spec_run(old(self)@),
    {
        loop
            invariant
                vm_wf(self@),
                spec_run(self@) == spec_run(old(self)@),
            decreases self@.fuel,
        {
            let ghost before = self@;
            match self.step() {
                Some(r) => return r,
                None => {
                    proof {
                        lemma_step_decreases(before);
                    }
                },
            }
        }
    }

    /// Hands what was read from standard input to a waiting `\g`: the
    /// primitive will be replaced by the injected input `<ESCAPED>`, or by
    /// `<EOF>` when the input was at its end (`None`).
    /// Does nothing when no input is awaited.
    pub fn supply_input(&mut self, input: Option<&str>)
        requires
            vm_wf(old(self)@),
        ensures
            vm_wf(final(self)@),
            match old(self)@.pending {
                Some(PendingView::Input { start, end }) => final(self)@ == (VmView {
                    pending: Some(
                        PendingView::Edit {
                            start,
                            end,
                            replacement: spec_format_g_input(
                                match input {
                                    Some(t) => Some(t@),
                                    None => None,
                                },
                            ),
                        },
                    ),
                    ..old(self)@
                }),
                _ => final(self)@ == old(self)@,
            },
    {
        if let Some(Pending::Input { start, end }) = &self.pending {
            let start = *start;
            let end = *end;
            let replacement = format_g_input(input);
            self.pending = Some(Pending::Edit { start, end, replacement });
        }
    }

    /// The leftmost active block primitive starting with `prefix` in `tape`,
    /// as byte offsets `(start, end)`, `end` just after its first unescaped `}`;
    /// `None` when there is none.
    pub fn scan_block_primitive(&self, tape: &str, prefix: &str) -> (r: Option<(usize, usize)>)
        requires
            byte_len(tape@) <= usize::MAX,
        ensures
            match spec_scan_block(tape@, prefix@) {
                Some((p, e)) => r == Some(
                    (byte_offset(tape@, p) as usize, byte_offset(tape@, e) as usize),
                ),
                None => r is None,
            },
    {
        let t = chars_of(tape);
        let p = chars_of(prefix);
        match scan_block_chars(&t, &p) {
            Some((a, e)) => Some((byte_offset_of(&t, a), byte_offset_of(&t, e))),
            None => None,
        }
    }

    /// The leftmost active occurrence of `pattern` in `tape`, as byte offsets;
    /// `None` when there is none.
    pub fn scan_simple_primitive(tape: &str, pattern: &str) -> (r: Option<(usize, usize)>)
        requires
            byte_len(tape@) <= usize::MAX,
        ensures
            match spec_scan_simple(tape@, pattern@) {
                Some((p, e)) => r == Some(
                    (byte_offset(tape@, p) as usize, byte_offset(tape@, e) as usize),
                ),
                None => r is None,
            },
    {
        let t = chars_of(tape);
        let p = chars_of(pattern);
        match scan_simple_chars(&t, &p) {
            Some((a, e)) => Some((byte_offset_of(&t, a), byte_offset_of(&t, e))),
            None => None,
        }
    }
}

} // verus!
