//! Control syntax read back: a dependency expression the parser produced,
//! written out in control syntax, parses to the same expression.

use vstd::prelude::*;

use crate::depends::{
    alternative_ok, alternative_spec, clause_core, clause_ok, clause_spec, clause_text,
    constraint_spec, depends_ok, depends_spec, expr_text, group_alternatives, group_ok, group_spec,
    op_text, version_after, version_text, ClauseView, ConstraintView,
};
use crate::text::{
    back_ws, find_char, is_ws, lemma_find_char, lemma_rfind_char, rfind_char, skip_ws, split_ranges,
    trim_range,
};

verus! {

// ---------------------------------------------------------------------------
// Scanning facts

proof fn lemma_find_at(s: Seq<char>, c: char, i: int, j: int, hi: int)
    requires
        i <= j < hi,
        s[j] == c,
        forall|m: int| i <= m < j ==> s[m] != c,
    ensures
        find_char(s, c, i, hi) == Some(j),
    decreases j - i,
{
    if i < j {
        lemma_find_at(s, c, i + 1, j, hi);
    }
}

proof fn lemma_find_none(s: Seq<char>, c: char, i: int, hi: int)
    requires
        forall|m: int| i <= m < hi ==> s[m] != c,
    ensures
        find_char(s, c, i, hi) is None,
    decreases hi - i,
{
    if i < hi {
        lemma_find_none(s, c, i + 1, hi);
    }
}

proof fn lemma_rfind_at(s: Seq<char>, c: char, lo: int, k: int, j: int)
    requires
        lo <= k < j,
        s[k] == c,
        forall|m: int| k < m < j ==> s[m] != c,
    ensures
        rfind_char(s, c, lo, j) == Some(k),
    decreases j - k,
{
    if k < j - 1 {
        lemma_rfind_at(s, c, lo, k, j - 1);
    }
}

proof fn lemma_skip_at(s: Seq<char>, i: int, j: int, hi: int)
    requires
        i <= j <= hi,
        forall|m: int| i <= m < j ==> is_ws(#[trigger] s[m]),
        j < hi ==> !is_ws(s[j]),
    ensures
        skip_ws(s, i, hi) == j,
    decreases j - i,
{
    if i < j {
        lemma_skip_at(s, i + 1, j, hi);
    }
}

proof fn lemma_back_at(s: Seq<char>, lo: int, k: int, j: int)
    requires
        lo <= k <= j,
        forall|m: int| k <= m < j ==> is_ws(#[trigger] s[m]),
        lo < k ==> !is_ws(s[k - 1]),
    ensures
        back_ws(s, lo, j) == k,
    decreases j - k,
{
    if k < j {
        lemma_back_at(s, lo, k, j - 1);
    }
}

/// `[a, b)` holds a text without white space at either end: trimming
/// `[lo, hi)` with white space only around it gives `[a, b)`.
proof fn lemma_trim_at(s: Seq<char>, lo: int, a: int, b: int, hi: int)
    requires
        lo <= a < b <= hi,
        forall|m: int| lo <= m < a ==> is_ws(#[trigger] s[m]),
        forall|m: int| b <= m < hi ==> is_ws(#[trigger] s[m]),
        !is_ws(s[a]),
        !is_ws(s[b - 1]),
    ensures
        trim_range(s, lo, hi) == (a, b),
{
    lemma_skip_at(s, lo, a, hi);
    lemma_back_at(s, a, b, hi);
}

proof fn lemma_skip_facts(s: Seq<char>, i: int, hi: int)
    requires
        i <= hi,
    ensures
        i <= skip_ws(s, i, hi) <= hi,
        skip_ws(s, i, hi) < hi ==> !is_ws(s[skip_ws(s, i, hi)]),
    decreases hi - i,
{
    if i < hi && is_ws(s[i]) {
        lemma_skip_facts(s, i + 1, hi);
    }
}

proof fn lemma_back_facts(s: Seq<char>, lo: int, j: int)
    requires
        lo <= j,
    ensures
        lo <= back_ws(s, lo, j) <= j,
        back_ws(s, lo, j) > lo ==> !is_ws(s[back_ws(s, lo, j) - 1]),
    decreases j - lo,
{
    if lo < j && is_ws(s[j - 1]) {
        lemma_back_facts(s, lo, j - 1);
    }
}

/// Trimming stays inside the range and leaves no white space at the ends.
proof fn lemma_trim_facts(s: Seq<char>, lo: int, hi: int)
    requires
        lo <= hi,
    ensures
        lo <= trim_range(s, lo, hi).0 <= trim_range(s, lo, hi).1 <= hi,
        trim_range(s, lo, hi).0 < trim_range(s, lo, hi).1 ==> !is_ws(s[trim_range(s, lo, hi).0])
            && !is_ws(s[trim_range(s, lo, hi).1 - 1]),
{
    lemma_skip_facts(s, lo, hi);
    let a = skip_ws(s, lo, hi);
    lemma_back_facts(s, a, hi);
}

// ---------------------------------------------------------------------------
// What parsed clauses look like

/// A character no parsed name or version holds: the separators `,` and
/// `|`, and the `[` that starts an architecture list.
pub open spec fn plain_char(ch: char) -> bool {
    ch != ',' && ch != '|' && ch != '['
}

pub open spec fn plain_text(t: Seq<char>) -> bool {
    forall|i: int| 0 <= i < t.len() ==> plain_char(#[trigger] t[i])
}

/// Not empty, and no white space at either end.
pub open spec fn tight(t: Seq<char>) -> bool {
    t.len() > 0 && !is_ws(t[0]) && !is_ws(t[t.len() - 1])
}

/// No `<` comes after a `)`: such a `<` would start a build profile.
pub open spec fn no_cut_after_close(v: Seq<char>) -> bool {
    forall|i: int, j: int|
        #![trigger v[i], v[j]]
        0 <= i < j < v.len() && v[i] == ')' ==> v[j] != '<'
}

/// A version as the parser hands it out.
pub open spec fn version_wf(v: Seq<char>) -> bool {
    tight(v) && plain_text(v) && no_cut_after_close(v)
}

/// What every alternative the parser produces satisfies: a tight, plain
/// name without `(` or `<` (and without `:` when unconstrained), and a
/// version as [`version_wf`] describes under any relation.
pub open spec fn clause_wf(c: ClauseView) -> bool {
    &&& tight(c.name)
    &&& plain_text(c.name)
    &&& !c.name.contains('(')
    &&& !c.name.contains('<')
    &&& match c.constraint {
        ConstraintView::Any => !c.name.contains(':'),
        ConstraintView::Eq(v) => version_wf(v),
        ConstraintView::Ne(v) => version_wf(v),
        ConstraintView::Gt(v) => version_wf(v),
        ConstraintView::Ge(v) => version_wf(v),
        ConstraintView::Lt(v) => version_wf(v),
        ConstraintView::Le(v) => version_wf(v),
    }
}

/// The core of an alternative holds no `[`, and a `<` in it stands after
/// its first `(` with no `)` in between.
proof fn lemma_core_facts(s: Seq<char>, lo: int, hi: int)
    requires
        lo <= hi <= s.len(),
    ensures
        lo <= clause_core(s, lo, hi).0 <= clause_core(s, lo, hi).1 <= hi,
        forall|m: int| clause_core(s, lo, hi).0 <= m < clause_core(s, lo, hi).1 ==> s[m] != '[',
        clause_core(s, lo, hi).0 < clause_core(s, lo, hi).1 ==> !is_ws(s[clause_core(s, lo, hi).0])
            && !is_ws(s[clause_core(s, lo, hi).1 - 1]),
        find_char(s, '(', clause_core(s, lo, hi).0, clause_core(s, lo, hi).1) is None ==> forall|
            m: int,
        |
            clause_core(s, lo, hi).0 <= m < clause_core(s, lo, hi).1 ==> s[m] != '<',
        find_char(s, '(', clause_core(s, lo, hi).0, clause_core(s, lo, hi).1) matches Some(open)
            ==> forall|m: int|
            clause_core(s, lo, hi).0 <= m < clause_core(s, lo, hi).1 && s[m] == '<' ==> open < m
                && forall|j: int| open <= j < m ==> s[j] != ')',
{
    let t0 = trim_range(s, lo, hi);
    lemma_trim_facts(s, lo, hi);
    lemma_find_char(s, '[', t0.0, t0.1);
    let t1 = match find_char(s, '[', t0.0, t0.1) {
        Some(i) => trim_range(s, t0.0, i),
        None => t0,
    };
    match find_char(s, '[', t0.0, t0.1) {
        Some(i) => {
            lemma_trim_facts(s, t0.0, i);
        },
        None => {},
    }
    let core = clause_core(s, lo, hi);
    lemma_find_char(s, '(', t1.0, t1.1);
    lemma_find_char(s, '<', t1.0, t1.1);
    match find_char(s, '(', t1.0, t1.1) {
        None => {
            match find_char(s, '<', t1.0, t1.1) {
                Some(i) => {
                    lemma_trim_facts(s, t1.0, i);
                },
                None => {},
            }
            lemma_find_char(s, '(', core.0, core.1);
        },
        Some(open) => {
            lemma_find_char(s, '<', t1.0, open);
            match find_char(s, '<', t1.0, open) {
                Some(i) => {
                    lemma_trim_facts(s, t1.0, i);
                    lemma_find_char(s, '(', core.0, core.1);
                },
                None => {
                    lemma_find_char(s, ')', open, t1.1);
                    match find_char(s, ')', open, t1.1) {
                        Some(close) => {
                            lemma_find_char(s, '<', close + 1, t1.1);
                            match find_char(s, '<', close + 1, t1.1) {
                                Some(i) => {
                                    lemma_trim_facts(s, t1.0, i);
                                    lemma_skip_at(s, t1.0, t1.0, i);
                                    assert(core.0 == t1.0);
                                    assert(!is_ws(s[close]));
                                    lemma_back_facts(s, t1.0, i);
                                    if core.1 <= close {
                                        lemma_back_le(s, t1.0, i, close);
                                    }
                                    lemma_find_at(s, '(', core.0, open, core.1);
                                },
                                None => {
                                    lemma_find_at(s, '(', core.0, open, core.1);
                                },
                            }
                        },
                        None => {
                            lemma_find_at(s, '(', core.0, open, core.1);
                        },
                    }
                },
            }
        },
    }
}

/// Trimming white space from the back of `[lo, j)` keeps every non-space
/// character at `k`.
proof fn lemma_back_le(s: Seq<char>, lo: int, j: int, k: int)
    requires
        lo <= k < j,
        !is_ws(s[k]),
    ensures
        back_ws(s, lo, j) > k,
    decreases j - lo,
{
    if j - 1 > k && is_ws(s[j - 1]) {
        lemma_back_le(s, lo, j - 1, k);
    }
}

/// A version cut from `[w, b)` inside a range with no separator and no `<`
/// after a `)` is as [`version_wf`] describes.
proof fn lemma_version_wf(s: Seq<char>, lo: int, w: int, b: int, hi: int)
    requires
        0 <= lo <= w <= b <= hi <= s.len(),
        forall|m: int| lo <= m < hi ==> plain_char(#[trigger] s[m]),
        forall|m1: int, m2: int|
            #![trigger s[m1], s[m2]]
            lo <= m1 < m2 < hi && s[m1] == ')' ==> s[m2] != '<',
    ensures
        version_after(s, w, b) matches Some(v) ==> version_wf(v),
{
    lemma_trim_facts(s, w, b);
    let r = trim_range(s, w, b);
    if r.0 < r.1 {
        let v = s.subrange(r.0, r.1);
        assert forall|i: int| 0 <= i < v.len() implies plain_char(#[trigger] v[i]) by {
            assert(v[i] == s[r.0 + i]);
        }
        assert forall|i: int, j: int|
            #![trigger v[i], v[j]]
            0 <= i < j < v.len() && v[i] == ')' implies v[j] != '<' by {
            assert(v[i] == s[r.0 + i]);
            assert(v[j] == s[r.0 + j]);
        }
    }
}

/// The version of a parsed relation is as [`version_wf`] describes.
proof fn lemma_constraint_wf(s: Seq<char>, lo: int, hi: int, k: ConstraintView)
    requires
        0 <= lo <= hi <= s.len(),
        forall|m: int| lo <= m < hi ==> plain_char(#[trigger] s[m]),
        forall|m1: int, m2: int|
            #![trigger s[m1], s[m2]]
            lo <= m1 < m2 < hi && s[m1] == ')' ==> s[m2] != '<',
        constraint_spec(s, lo, hi) == Some(k),
    ensures
        match k {
            ConstraintView::Any => false,
            ConstraintView::Eq(v) => version_wf(v),
            ConstraintView::Ne(v) => version_wf(v),
            ConstraintView::Gt(v) => version_wf(v),
            ConstraintView::Ge(v) => version_wf(v),
            ConstraintView::Lt(v) => version_wf(v),
            ConstraintView::Le(v) => version_wf(v),
        },
{
    let t = trim_range(s, lo, hi);
    lemma_trim_facts(s, lo, hi);
    let a = t.0;
    let b = t.1;
    if a + 1 <= b {
        lemma_version_wf(s, lo, a + 1, b, hi);
    }
    if a + 2 <= b {
        lemma_version_wf(s, lo, a + 2, b, hi);
    }
}

/// Every alternative the parser produces from a range without `,` or `|`
/// is well formed.
pub proof fn lemma_parsed_clause_wf(s: Seq<char>, lo: int, hi: int, c: ClauseView)
    requires
        0 <= lo <= hi <= s.len(),
        forall|m: int| lo <= m < hi ==> s[m] != ',' && s[m] != '|',
        clause_spec(s, lo, hi) == Some(c),
    ensures
        clause_wf(c),
{
    let core = clause_core(s, lo, hi);
    lemma_core_facts(s, lo, hi);
    assert forall|m: int| core.0 <= m < core.1 implies plain_char(#[trigger] s[m]) by {}
    lemma_find_char(s, '(', core.0, core.1);
    lemma_rfind_char(s, ')', core.0, core.1);
    match find_char(s, '(', core.0, core.1) {
        Some(open) => {
            let close = rfind_char(s, ')', core.0, core.1).unwrap();
            let n = trim_range(s, core.0, open);
            lemma_trim_facts(s, core.0, open);
            let k = constraint_spec(s, open + 1, close).unwrap();
            if open + 1 <= close {
                assert forall|m1: int, m2: int|
                    #![trigger s[m1], s[m2]]
                    open + 1 <= m1 < m2 < close && s[m1] == ')' implies s[m2] != '<' by {
                    if s[m2] == '<' {
                        assert(open <= m1 < m2);
                    }
                }
                lemma_constraint_wf(s, open + 1, close, k);
            } else {
                assert(constraint_spec(s, open + 1, close) is None);
            }
            let name = s.subrange(n.0, n.1);
            assert(c.name == name);
            assert forall|i: int| 0 <= i < name.len() implies plain_char(#[trigger] name[i]) by {
                assert(name[i] == s[n.0 + i]);
            }
            if name.contains('(') {
                let i = choose|i: int| 0 <= i < name.len() && name[i] == '(';
                assert(name[i] == s[n.0 + i]);
            }
            if name.contains('<') {
                let i = choose|i: int| 0 <= i < name.len() && name[i] == '<';
                assert(name[i] == s[n.0 + i]);
            }
        },
        None => {
            lemma_find_char(s, ':', core.0, core.1);
            let end = match find_char(s, ':', core.0, core.1) {
                Some(i) => i,
                None => core.1,
            };
            let n = trim_range(s, core.0, end);
            lemma_trim_facts(s, core.0, end);
            let name = s.subrange(n.0, n.1);
            assert(c.name == name);
            assert forall|i: int| 0 <= i < name.len() implies plain_char(#[trigger] name[i]) by {
                assert(name[i] == s[n.0 + i]);
            }
            if name.contains('(') {
                let i = choose|i: int| 0 <= i < name.len() && name[i] == '(';
                assert(name[i] == s[n.0 + i]);
            }
            if name.contains('<') {
                let i = choose|i: int| 0 <= i < name.len() && name[i] == '<';
                assert(name[i] == s[n.0 + i]);
            }
            if name.contains(':') {
                let i = choose|i: int| 0 <= i < name.len() && name[i] == ':';
                assert(name[i] == s[n.0 + i]);
            }
        },
    }
}

// ---------------------------------------------------------------------------
// Reading a written alternative back

/// The written form of a well-formed alternative holds no `,`, `|` or `[`.
proof fn lemma_clause_text_plain(c: ClauseView)
    requires
        clause_wf(c),
    ensures
        plain_text(clause_text(c)),
{
    let t = clause_text(c);
    let l = c.name.len();
    match c.constraint {
        ConstraintView::Any => {},
        _ => {
            let k = c.constraint;
            let v = version_text(k);
            let op = op_text(k);
            assert(t == c.name + seq![' ', '('] + op + seq![' '] + v + seq![')']);
            assert forall|i: int| 0 <= i < t.len() implies plain_char(#[trigger] t[i]) by {
                if i < l {
                    assert(t[i] == c.name[i]);
                } else if i < l + 2 {
                } else if i < l + 2 + op.len() {
                    assert(t[i] == op[i - l - 2]);
                } else if i == l + 2 + op.len() {
                } else if i < l + 3 + op.len() + v.len() {
                    assert(t[i] == v[i - l - 3 - op.len()]);
                } else {
                    assert(i == t.len() - 1);
                }
            }
        },
    }
}

/// A well-formed alternative written at `[a, b)` of `x` reads back as
/// itself, and the parser takes it.
#[verifier::rlimit(50)]
pub proof fn lemma_clause_reparse(x: Seq<char>, a: int, b: int, c: ClauseView)
    requires
        0 <= a < b <= x.len(),
        clause_wf(c),
        x.subrange(a, b) == clause_text(c),
    ensures
        clause_spec(x, a, b) == Some(c),
        clause_ok(x, a, b),
{
    let t = clause_text(c);
    let l = c.name.len() as int;
    assert forall|m: int| a <= m < b implies #[trigger] x[m] == t[m - a] by {
        assert(x.subrange(a, b)[m - a] == x[m]);
    }
    lemma_clause_text_plain(c);
    assert forall|m: int| a <= m < b implies x[m] != '[' by {
        assert(plain_char(t[m - a]));
    }
    assert(x[a] == c.name[0]);
    assert(!is_ws(x[b - 1])) by {
        match c.constraint {
            ConstraintView::Any => {
                assert(x[b - 1] == t[t.len() - 1]);
            },
            _ => {
                assert(x[b - 1] == t[t.len() - 1]);
            },
        }
    }
    lemma_trim_at(x, a, a, b, b);
    lemma_find_none(x, '[', a, b);
    match c.constraint {
        ConstraintView::Any => {
            assert(t == c.name);
            assert forall|m: int| a <= m < b implies x[m] != '(' && x[m] != ':' && x[m] != '<' by {
                assert(x[m] == c.name[m - a]);
                if x[m] == '(' {
                    assert(c.name.contains('('));
                }
                if x[m] == ':' {
                    assert(c.name.contains(':'));
                }
                if x[m] == '<' {
                    assert(c.name.contains('<'));
                }
            }
            lemma_find_none(x, '(', a, b);
            lemma_find_none(x, ':', a, b);
            lemma_find_none(x, '<', a, b);
            assert(clause_core(x, a, b) == (a, b));
            assert(x.subrange(a, b) == c.name);
        },
        _ => {
            let k = c.constraint;
            let v = version_text(k);
            let op = op_text(k);
            assert(t == c.name + seq![' ', '('] + op + seq![' '] + v + seq![')']);
            let open = a + l + 1;
            let close = b - 1;
            assert(x[a + l] == ' ');
            assert(x[open] == '(');
            assert(x[close] == ')');
            assert forall|m: int| a <= m < open implies x[m] != '(' && x[m] != '<' by {
                if m < a + l {
                    assert(x[m] == c.name[m - a]);
                    if x[m] == '(' {
                        assert(c.name.contains('('));
                    }
                    if x[m] == '<' {
                        assert(c.name.contains('<'));
                    }
                }
            }
            lemma_find_at(x, '(', a, open, b);
            lemma_rfind_at(x, ')', a, close, b);
            lemma_find_none(x, '<', a, open);
            let ia = open + 1;
            let vs = ia + op.len() + 1;
            assert(version_wf(v));
            assert(close == vs + v.len());
            assert forall|m: int| vs <= m < close implies #[trigger] x[m] == v[m - vs] by {
                assert(x[m] == t[l + 3 + op.len() + (m - vs)]);
            }
            assert forall|m: int| open <= m < vs implies #[trigger] x[m] != ')' by {
                if m > open && m < vs - 1 {
                    assert(x[m] == op[m - ia]);
                }
            }
            lemma_find_char(x, ')', open, b);
            let c1 = find_char(x, ')', open, b).unwrap();
            assert(vs <= c1);
            assert forall|m: int| c1 + 1 <= m < b implies x[m] != '<' by {
                if m < close {
                    if c1 < close {
                        assert(v[c1 - vs] == ')');
                        assert(v[m - vs] != '<');
                    }
                }
            }
            lemma_find_none(x, '<', c1 + 1, b);
            assert(clause_core(x, a, b) == (a, b));
            assert forall|m: int| a + l <= m < open implies is_ws(#[trigger] x[m]) by {}
            lemma_trim_at(x, a, a, a + l, open);
            assert(x.subrange(a, a + l) =~= c.name) by {
                assert forall|i: int| 0 <= i < l implies x.subrange(a, a + l)[i] == c.name[i] by {
                    assert(x[a + i] == t[i]);
                }
            }
            assert(v.len() > 0);
            assert(x[ia] == op[0]);
            assert(!is_ws(x[close - 1])) by {
                assert(x[close - 1] == v[v.len() - 1]);
            }
            lemma_trim_at(x, ia, ia, close, close);
            assert(x[ia + op.len()] == ' ');
            assert(x.subrange(vs, close) =~= v) by {
                assert forall|i: int| 0 <= i < v.len() implies x.subrange(vs, close)[i] == v[i] by {
                    assert(x[vs + i] == t[l + 3 + op.len() + i]);
                }
            }
            assert(x[vs] == v[0]);
            match k {
                ConstraintView::Eq(_) => {
                    assert(x[ia + 1] == ' ');
                    assert forall|m: int| ia + 1 <= m < vs implies is_ws(#[trigger] x[m]) by {}
                    lemma_trim_at(x, ia + 1, vs, close, close);
                },
                _ => {
                    assert(x[ia + 1] == op[1]);
                    assert forall|m: int| ia + 2 <= m < vs implies is_ws(#[trigger] x[m]) by {}
                    lemma_trim_at(x, ia + 2, vs, close, close);
                },
            }
        },
    }
}

// ---------------------------------------------------------------------------
// Reading a written expression back

/// Where the `k`-th alternative starts in the written expression.
pub open spec fn clause_start(e: Seq<ClauseView>, k: int) -> int
    decreases k,
{
    if k <= 0 {
        0
    } else {
        clause_start(e, k - 1) + clause_text(e[k - 1]).len() + 3
    }
}

/// Where the `k`-th alternative ends.
pub open spec fn clause_end(e: Seq<ClauseView>, k: int) -> int {
    clause_start(e, k) + clause_text(e[k]).len()
}

/// ` | ` at `p`.
pub open spec fn separator_at(x: Seq<char>, p: int) -> bool {
    x[p] == ' ' && x[p + 1] == '|' && x[p + 2] == ' '
}

proof fn lemma_start_prefix(e: Seq<ClauseView>, k: int)
    requires
        0 <= k < e.len(),
    ensures
        clause_start(e.drop_last(), k) == clause_start(e, k),
    decreases k,
{
    if k > 0 {
        lemma_start_prefix(e, k - 1);
        assert(e.drop_last()[k - 1] == e[k - 1]);
    }
}

proof fn lemma_start_mono(e: Seq<ClauseView>, j: int, k: int)
    requires
        0 <= j <= k,
    ensures
        clause_start(e, j) + 3 * (k - j) <= clause_start(e, k),
    decreases k - j,
{
    if j < k {
        lemma_start_mono(e, j, k - 1);
    }
}

/// The written expression ends where its last alternative ends.
proof fn lemma_layout_len(e: Seq<ClauseView>)
    requires
        e.len() > 0,
    ensures
        expr_text(e).len() == clause_end(e, e.len() - 1),
    decreases e.len(),
{
    let n = e.len();
    if n > 1 {
        let d = e.drop_last();
        lemma_layout_len(d);
        lemma_start_prefix(e, n - 2);
        assert(d[n - 2] == e[n - 2]);
    }
}

/// The `k`-th alternative is written at its start.
proof fn lemma_layout_clause(e: Seq<ClauseView>, k: int)
    requires
        0 <= k < e.len(),
    ensures
        clause_end(e, k) <= expr_text(e).len(),
        expr_text(e).subrange(clause_start(e, k), clause_end(e, k)) == clause_text(e[k]),
    decreases e.len(),
{
    let n = e.len();
    let x = expr_text(e);
    if n == 1 {
        assert(x.subrange(0, x.len() as int) =~= x);
    } else {
        let d = e.drop_last();
        let y = expr_text(d);
        let t = clause_text(e[n - 1]);
        assert(x == y + seq![' ', '|', ' '] + t);
        lemma_layout_len(d);
        lemma_start_prefix(e, n - 2);
        assert(d[n - 2] == e[n - 2]);
        if k < n - 1 {
            lemma_layout_clause(d, k);
            lemma_start_prefix(e, k);
            assert(d[k] == e[k]);
            let a = clause_start(e, k);
            let b = clause_end(e, k);
            lemma_start_mono(e, 0, k);
            assert(clause_end(d, k) == b);
            assert(x.subrange(a, b) =~= y.subrange(a, b));
        } else {
            assert(clause_start(e, n - 1) == y.len() + 3);
            assert(x.subrange(y.len() + 3int, x.len() as int) =~= t);
        }
    }
}

/// ` | ` follows every alternative but the last.
proof fn lemma_layout_separator(e: Seq<ClauseView>, k: int)
    requires
        0 <= k < e.len() - 1,
    ensures
        clause_end(e, k) + 3 <= expr_text(e).len(),
        separator_at(expr_text(e), clause_end(e, k)),
    decreases e.len(),
{
    let n = e.len();
    let x = expr_text(e);
    let d = e.drop_last();
    let y = expr_text(d);
    let t = clause_text(e[n - 1]);
    assert(x == y + seq![' ', '|', ' '] + t);
    lemma_layout_len(d);
    lemma_start_prefix(e, k);
    assert(d[k] == e[k]);
    let p = clause_end(e, k);
    lemma_start_mono(e, 0, k);
    assert(clause_end(d, k) == p);
    if k < n - 2 {
        lemma_layout_separator(d, k);
        assert(x[p] == y[p] && x[p + 1] == y[p + 1] && x[p + 2] == y[p + 2]);
    } else {
        assert(p == y.len());
        assert(x[p] == ' ' && x[p + 1] == '|' && x[p + 2] == ' ');
    }
}

/// The written form of a well-formed alternative has no white space at
/// either end.
proof fn lemma_clause_text_tight(c: ClauseView)
    requires
        clause_wf(c),
    ensures
        tight(clause_text(c)),
{
    let t = clause_text(c);
    match c.constraint {
        ConstraintView::Any => {},
        _ => {
            assert(t == c.name + seq![' ', '('] + op_text(c.constraint) + seq![' '] + version_text(
                c.constraint,
            ) + seq![')']);
            assert(t[0] == c.name[0]);
            assert(t[t.len() - 1] == ')');
        },
    }
}

/// Splitting at a last separator `p`: the pieces before it, then the rest.
proof fn lemma_split_last(s: Seq<char>, c: char, i: int, p: int, hi: int)
    requires
        0 <= i <= p < hi <= s.len(),
        s[p] == c,
        forall|m: int| p < m < hi ==> s[m] != c,
    ensures
        split_ranges(s, c, i, hi) == split_ranges(s, c, i, p) + seq![(p + 1, hi)],
    decreases p - i,
{
    lemma_find_char(s, c, i, hi);
    let j = find_char(s, c, i, hi).unwrap();
    lemma_find_char(s, c, i, p);
    if j < p {
        lemma_find_at(s, c, i, j, p);
        lemma_split_last(s, c, j + 1, p, hi);
        assert(split_ranges(s, c, i, hi) == seq![(i, j)] + split_ranges(s, c, j + 1, hi));
        assert(split_ranges(s, c, i, p) == seq![(i, j)] + split_ranges(s, c, j + 1, p));
        assert(split_ranges(s, c, i, hi) =~= split_ranges(s, c, i, p) + seq![(p + 1, hi)]);
    } else {
        lemma_find_none(s, c, i, p);
        lemma_find_none(s, c, p + 1, hi);
        assert(split_ranges(s, c, i, hi) == seq![(i, p)] + split_ranges(s, c, p + 1, hi));
        assert(split_ranges(s, c, i, hi) =~= split_ranges(s, c, i, p) + seq![(p + 1, hi)]);
    }
}

/// No piece of a split holds the separator, and each lies inside the range.
proof fn lemma_split_pieces(s: Seq<char>, c: char, i: int, hi: int)
    requires
        0 <= i <= hi <= s.len(),
    ensures
        forall|k: int|
            0 <= k < split_ranges(s, c, i, hi).len() ==> i <= (#[trigger] split_ranges(s, c, i, hi)[k]).0
                <= split_ranges(s, c, i, hi)[k].1 <= hi,
        forall|k: int, m: int|
            0 <= k < split_ranges(s, c, i, hi).len() && (#[trigger] split_ranges(s, c, i, hi)[k]).0 <= m
                < split_ranges(s, c, i, hi)[k].1 ==> #[trigger] s[m] != c,
    decreases hi - i + 1,
{
    lemma_find_char(s, c, i, hi);
    match find_char(s, c, i, hi) {
        None => {},
        Some(j) => {
            lemma_split_pieces(s, c, j + 1, hi);
            let rest = split_ranges(s, c, j + 1, hi);
            assert(split_ranges(s, c, i, hi) == seq![(i, j)] + rest);
            assert forall|k: int|
                0 <= k < split_ranges(s, c, i, hi).len() implies i <= (#[trigger] split_ranges(
                s,
                c,
                i,
                hi,
            )[k]).0 <= split_ranges(s, c, i, hi)[k].1 <= hi by {
                if k > 0 {
                    assert(split_ranges(s, c, i, hi)[k] == rest[k - 1]);
                }
            }
            assert forall|k: int, m: int|
                0 <= k < split_ranges(s, c, i, hi).len() && (#[trigger] split_ranges(s, c, i, hi)[k]).0
                    <= m < split_ranges(s, c, i, hi)[k].1 implies #[trigger] s[m] != c by {
                if k > 0 {
                    assert(split_ranges(s, c, i, hi)[k] == rest[k - 1]);
                }
            }
        },
    }
}

/// Each entry of a `filter_map` comes from an entry of the sequence.
proof fn lemma_filter_map_from<A, B>(ps: Seq<A>, f: spec_fn(A) -> Option<B>, k: int)
    requires
        0 <= k < ps.filter_map(f).len(),
    ensures
        exists|j: int| 0 <= j < ps.len() && f(ps[j]) == Some(#[trigger] ps.filter_map(f)[k]),
    decreases ps.len(),
{
    if ps.len() > 0 {
        let rest = ps.drop_last();
        match f(ps.last()) {
            Some(b) => {
                if k < rest.filter_map(f).len() {
                    lemma_filter_map_from(rest, f, k);
                    let j = choose|j: int| 0 <= j < rest.len() && f(rest[j]) == Some(
                        #[trigger] rest.filter_map(f)[k],
                    );
                    assert(ps[j] == rest[j]);
                    assert(ps.filter_map(f)[k] == rest.filter_map(f)[k]);
                } else {
                    assert(ps.filter_map(f)[k] == b);
                    assert(ps[ps.len() - 1] == ps.last());
                }
            },
            None => {
                lemma_filter_map_from(rest, f, k);
                let j = choose|j: int| 0 <= j < rest.len() && f(rest[j]) == Some(
                    #[trigger] rest.filter_map(f)[k],
                );
                assert(ps[j] == rest[j]);
            },
        }
    }
}

/// A `filter_map` that keeps every entry.
proof fn lemma_filter_map_all<A, B>(ps: Seq<A>, f: spec_fn(A) -> Option<B>, out: Seq<B>)
    requires
        ps.len() == out.len(),
        forall|k: int| 0 <= k < ps.len() ==> f(#[trigger] ps[k]) == Some(out[k]),
    ensures
        ps.filter_map(f) == out,
    decreases ps.len(),
{
    if ps.len() > 0 {
        let rest = ps.drop_last();
        assert forall|k: int| 0 <= k < rest.len() implies f(#[trigger] rest[k]) == Some(
            out.drop_last()[k],
        ) by {
            assert(rest[k] == ps[k]);
        }
        lemma_filter_map_all(rest, f, out.drop_last());
        assert(f(ps.last()) == Some(out[out.len() - 1]));
        assert(ps.filter_map(f) =~= out);
    }
}

/// Where the `k`-th `|`-separated piece of a written expression starts.
pub open spec fn piece_start(e: Seq<ClauseView>, k: int) -> int {
    if k == 0 {
        0
    } else {
        clause_start(e, k) - 1
    }
}

/// Where the `k`-th `|`-separated piece of a written expression ends.
pub open spec fn piece_end(e: Seq<ClauseView>, k: int) -> int {
    if k == e.len() - 1 {
        clause_end(e, k)
    } else {
        clause_end(e, k) + 1
    }
}

pub open spec fn all_wf(e: Seq<ClauseView>) -> bool {
    forall|k: int| 0 <= k < e.len() ==> clause_wf(#[trigger] e[k])
}

/// The characters of a written alternative, where it stands.
proof fn lemma_clause_chars(e: Seq<ClauseView>, k: int)
    requires
        0 <= k < e.len(),
        all_wf(e),
    ensures
        0 <= clause_start(e, k) < clause_end(e, k) <= expr_text(e).len(),
        forall|m: int|
            clause_start(e, k) <= m < clause_end(e, k) ==> plain_char(#[trigger] expr_text(e)[m]),
        !is_ws(expr_text(e)[clause_start(e, k)]),
        !is_ws(expr_text(e)[clause_end(e, k) - 1]),
        expr_text(e).subrange(clause_start(e, k), clause_end(e, k)) == clause_text(e[k]),
{
    let x = expr_text(e);
    assert(clause_wf(e[k]));
    lemma_layout_clause(e, k);
    lemma_start_mono(e, 0, k);
    lemma_clause_text_plain(e[k]);
    lemma_clause_text_tight(e[k]);
    let a = clause_start(e, k);
    let t = clause_text(e[k]);
    assert forall|m: int| a <= m < clause_end(e, k) implies plain_char(#[trigger] x[m]) by {
        assert(x.subrange(a, clause_end(e, k))[m - a] == x[m]);
        assert(plain_char(t[m - a]));
    }
    assert(x.subrange(a, clause_end(e, k))[0] == x[a]);
    assert(x.subrange(a, clause_end(e, k))[t.len() - 1] == x[clause_end(e, k) - 1]);
}

/// A written expression has no `,`.
proof fn lemma_no_comma(e: Seq<ClauseView>)
    requires
        e.len() > 0,
        all_wf(e),
    ensures
        forall|m: int| 0 <= m < expr_text(e).len() ==> #[trigger] expr_text(e)[m] != ',',
    decreases e.len(),
{
    let n = e.len();
    let x = expr_text(e);
    let t = clause_text(e[n - 1]);
    assert(clause_wf(e[n - 1]));
    lemma_clause_text_plain(e[n - 1]);
    if n == 1 {
        assert forall|m: int| 0 <= m < x.len() implies #[trigger] x[m] != ',' by {
            assert(plain_char(t[m]));
        }
    } else {
        let d = e.drop_last();
        assert forall|k: int| 0 <= k < d.len() implies clause_wf(#[trigger] d[k]) by {
            assert(d[k] == e[k]);
        }
        lemma_no_comma(d);
        let y = expr_text(d);
        assert(x == y + seq![' ', '|', ' '] + t);
        assert forall|m: int| 0 <= m < x.len() implies #[trigger] x[m] != ',' by {
            if m < y.len() {
                assert(x[m] == y[m]);
            } else if m >= y.len() + 3 {
                assert(x[m] == t[m - y.len() - 3]);
                assert(plain_char(t[m - y.len() - 3]));
            }
        }
    }
}

/// The pieces of a written expression up to the `|` after alternative `m`.
proof fn lemma_split_prefix(e: Seq<ClauseView>, m: int)
    requires
        0 <= m < e.len() - 1,
        all_wf(e),
    ensures
        split_ranges(expr_text(e), '|', 0, clause_end(e, m) + 1) =~= Seq::new(
            (m + 1) as nat,
            |k: int| (piece_start(e, k), clause_end(e, k) + 1),
        ),
    decreases m,
{
    let x = expr_text(e);
    lemma_clause_chars(e, m);
    lemma_layout_separator(e, m);
    let p = clause_end(e, m) + 1;
    if m == 0 {
        assert forall|t: int| 0 <= t < p implies x[t] != '|' by {
            if t < clause_end(e, 0) {
                assert(plain_char(x[t]));
            }
        }
        lemma_find_none(x, '|', 0, p);
    } else {
        lemma_split_prefix(e, m - 1);
        lemma_clause_chars(e, m - 1);
        lemma_layout_separator(e, m - 1);
        let q = clause_end(e, m - 1) + 1;
        assert(clause_start(e, m) == clause_end(e, m - 1) + 3);
        assert forall|t: int| q < t < p implies x[t] != '|' by {
            if clause_start(e, m) <= t < clause_end(e, m) {
                assert(plain_char(x[t]));
            }
        }
        lemma_split_last(x, '|', 0, q, p);
    }
}

/// The pieces of a written expression, split at `|`.
proof fn lemma_split_all(e: Seq<ClauseView>)
    requires
        e.len() > 0,
        all_wf(e),
    ensures
        split_ranges(expr_text(e), '|', 0, expr_text(e).len() as int) =~= Seq::new(
            e.len(),
            |k: int| (piece_start(e, k), piece_end(e, k)),
        ),
{
    let x = expr_text(e);
    let n = e.len();
    lemma_layout_len(e);
    lemma_clause_chars(e, n - 1);
    if n == 1 {
        assert forall|t: int| 0 <= t < x.len() implies x[t] != '|' by {
            assert(plain_char(x[t]));
        }
        lemma_find_none(x, '|', 0, x.len() as int);
    } else {
        lemma_split_prefix(e, n - 2);
        lemma_clause_chars(e, n - 2);
        lemma_layout_separator(e, n - 2);
        let q = clause_end(e, n - 2) + 1;
        assert(clause_start(e, n - 1) == clause_end(e, n - 2) + 3);
        assert forall|t: int| q < t < x.len() implies x[t] != '|' by {
            if clause_start(e, n - 1) <= t {
                assert(plain_char(x[t]));
            }
        }
        lemma_split_last(x, '|', 0, q, x.len() as int);
    }
}

/// A written expression of well-formed alternatives reads back as itself,
/// and the parser takes it.
proof fn lemma_expr_reparse(e: Seq<ClauseView>)
    requires
        e.len() > 0,
        all_wf(e),
    ensures
        depends_ok(expr_text(e)),
        depends_spec(expr_text(e)) == seq![e],
{
    let x = expr_text(e);
    let n = e.len();
    let len = x.len() as int;
    lemma_layout_len(e);
    lemma_no_comma(e);
    lemma_clause_chars(e, 0);
    lemma_clause_chars(e, n - 1);
    lemma_trim_at(x, 0, 0, len, len);
    lemma_split_all(e);
    let pieces = split_ranges(x, '|', 0, len);
    assert forall|k: int| 0 <= k < n implies #[trigger] alternative_spec(x, pieces[k]) == Some(e[k])
        && alternative_ok(x, pieces[k]) by {
        lemma_clause_chars(e, k);
        let a = clause_start(e, k);
        let b = clause_end(e, k);
        assert(pieces[k] == (piece_start(e, k), piece_end(e, k)));
        if k > 0 {
            lemma_clause_chars(e, k - 1);
            lemma_layout_separator(e, k - 1);
            assert(clause_start(e, k) == clause_end(e, k - 1) + 3);
        }
        if k < n - 1 {
            lemma_layout_separator(e, k);
        }
        assert forall|m: int| piece_start(e, k) <= m < a implies is_ws(#[trigger] x[m]) by {}
        assert forall|m: int| b <= m < piece_end(e, k) implies is_ws(#[trigger] x[m]) by {}
        lemma_trim_at(x, piece_start(e, k), a, b, piece_end(e, k));
        assert(clause_wf(e[k]));
        lemma_clause_reparse(x, a, b, e[k]);
    }
    let f = |q: (int, int)| alternative_spec(x, q);
    lemma_filter_map_all(pieces, f, e);
    assert(group_alternatives(x, (0int, len)) == e);
    assert(group_spec(x, (0int, len)) == Some(e));
    lemma_find_none(x, ',', 0, len);
    let groups = split_ranges(x, ',', 0, len);
    assert(groups == seq![(0int, len)]);
    let g = |r: (int, int)| group_spec(x, r);
    lemma_filter_map_all(groups, g, seq![e]);
    assert forall|k: int| 0 <= k < pieces.len() implies alternative_ok(x, #[trigger] pieces[k]) by {
        assert(alternative_spec(x, pieces[k]) == Some(e[k]));
    }
    assert(group_ok(x, groups[0]));
}

/// Writing a dependency expression the parser produced in control syntax
/// (alternatives joined by ` | `, each `name` or `name (op version)`) and
/// parsing that text again gives back exactly that one expression; the
/// parser takes the text.
pub proof fn lemma_display_round_trip(s: Seq<char>, k: int)
    requires
        depends_ok(s),
        0 <= k < depends_spec(s).len(),
    ensures
        depends_ok(expr_text(depends_spec(s)[k])),
        depends_spec(expr_text(depends_spec(s)[k])) == seq![depends_spec(s)[k]],
{
    let groups = split_ranges(s, ',', 0, s.len() as int);
    let g = |r: (int, int)| group_spec(s, r);
    lemma_filter_map_from(groups, g, k);
    let e = depends_spec(s)[k];
    let j = choose|j: int| 0 <= j < groups.len() && g(groups[j]) == Some(#[trigger] groups.filter_map(g)[k]);
    lemma_split_pieces(s, ',', 0, s.len() as int);
    let r = groups[j];
    assert(group_spec(s, r) == Some(e));
    let t = trim_range(s, r.0, r.1);
    lemma_trim_facts(s, r.0, r.1);
    let alts = split_ranges(s, '|', t.0, t.1);
    let f = |q: (int, int)| alternative_spec(s, q);
    assert(e == alts.filter_map(f));
    lemma_split_pieces(s, '|', t.0, t.1);
    assert forall|i: int| 0 <= i < e.len() implies clause_wf(#[trigger] e[i]) by {
        lemma_filter_map_from(alts, f, i);
        let q = choose|q: int| 0 <= q < alts.len() && f(alts[q]) == Some(#[trigger] alts.filter_map(f)[i]);
        let piece = alts[q];
        let u = trim_range(s, piece.0, piece.1);
        lemma_trim_facts(s, piece.0, piece.1);
        assert(alternative_spec(s, piece) == Some(e[i]));
        assert forall|m: int| u.0 <= m < u.1 implies s[m] != ',' && s[m] != '|' by {
            assert(s[m] != '|');
            assert(groups[j].0 <= m < groups[j].1);
            assert(s[m] != ',');
        }
        lemma_parsed_clause_wf(s, u.0, u.1, e[i]);
    }
    lemma_expr_reparse(e);
}

} // verus!
