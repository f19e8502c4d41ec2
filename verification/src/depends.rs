//! Debian dependency fields (`Depends`, `Pre-Depends`, `Provides`): their
//! parsing into AND-of-OR expressions, their control-file syntax, and whether
//! a set of available packages satisfies them.

use vstd::prelude::*;

use crate::text::{
    chars_of, find_char, same_chars, same_text, find_in, lemma_find_char, lemma_rfind_char, ranges_view, rfind_char,
    rfind_in, split_in, split_ranges, string_of, trim_bounds, trim_range,
};
use crate::version::{DebianVersion, VersionOrder, debian_version_order, debian_version_parses};

verus! {

/// A package name, optionally with an architecture qualifier (`pkg:amd64`).
#[derive(Debug, Clone, PartialEq, Eq, Hash)]
pub struct PackageRef {
    pub name: String,
}

/// A version relation on one alternative of a dependency.
#[derive(Debug, Clone, PartialEq, Eq)]
pub enum VersionConstraint {
    /// No version constraint.
    Any,
    Eq(String),
    Ne(String),
    Gt(String),
    Ge(String),
    Lt(String),
    Le(String),
}

/// One alternative in a dependency clause (`pkg (>= 1) | other`).
#[derive(Debug, Clone, PartialEq, Eq)]
pub struct DependencyClause {
    pub package: PackageRef,
    pub constraint: VersionConstraint,
}

/// AND-combined dependency expression (one comma-separated entry).
#[derive(Debug, Clone, PartialEq, Eq)]
pub struct DependencyExpr {
    pub alternatives: Vec<DependencyClause>,
}

/// Abstract version relation.
pub enum ConstraintView {
    Any,
    Eq(Seq<char>),
    Ne(Seq<char>),
    Gt(Seq<char>),
    Ge(Seq<char>),
    Lt(Seq<char>),
    Le(Seq<char>),
}

/// Abstract alternative: a package name and a relation.
pub struct ClauseView {
    pub name: Seq<char>,
    pub constraint: ConstraintView,
}

impl View for PackageRef {
    type V = Seq<char>;

    open spec fn view(&self) -> Seq<char> {
        self.name@
    }
}

impl View for VersionConstraint {
    type V = ConstraintView;

    open spec fn view(&self) -> ConstraintView {
        match self {
            VersionConstraint::Any => ConstraintView::Any,
            VersionConstraint::Eq(v) => ConstraintView::Eq(v@),
            VersionConstraint::Ne(v) => ConstraintView::Ne(v@),
            VersionConstraint::Gt(v) => ConstraintView::Gt(v@),
            VersionConstraint::Ge(v) => ConstraintView::Ge(v@),
            VersionConstraint::Lt(v) => ConstraintView::Lt(v@),
            VersionConstraint::Le(v) => ConstraintView::Le(v@),
        }
    }
}

impl View for DependencyClause {
    type V = ClauseView;

    open spec fn view(&self) -> ClauseView {
        ClauseView { name: self.package.name@, constraint: self.constraint@ }
    }
}

impl View for DependencyExpr {
    type V = Seq<ClauseView>;

    open spec fn view(&self) -> Seq<ClauseView> {
        self.alternatives@.map_values(|c: DependencyClause| c@)
    }
}

/// Views of a list of expressions.
pub open spec fn exprs_view(v: Seq<DependencyExpr>) -> Seq<Seq<ClauseView>> {
    v.map_values(|e: DependencyExpr| e@)
}

// ---------------------------------------------------------------------------
// Parsing

/// Whether `[a, b)` starts with the two characters `c1 c2`.
pub open spec fn starts2(s: Seq<char>, a: int, b: int, c1: char, c2: char) -> bool {
    b - a >= 2 && s[a] == c1 && s[a + 1] == c2
}

/// Whether `[a, b)` starts with `c1`.
pub open spec fn starts1(s: Seq<char>, a: int, b: int, c1: char) -> bool {
    b - a >= 1 && s[a] == c1
}

/// The version after a relation operator: the trimmed rest, which must not
/// be empty.
pub open spec fn version_after(s: Seq<char>, a: int, b: int) -> Option<Seq<char>> {
    let t = trim_range(s, a, b);
    if t.0 == t.1 {
        None
    } else {
        Some(s.subrange(t.0, t.1))
    }
}

/// The relation written inside the parentheses `[lo, hi)` of a clause. The
/// operators are tried in the order `>=`, `<=`, `>>`, `<<`, `!=`, `=`, `>`,
/// `<`; the first that prefixes the trimmed text wins.
pub open spec fn constraint_spec(s: Seq<char>, lo: int, hi: int) -> Option<ConstraintView> {
    let t = trim_range(s, lo, hi);
    let a = t.0;
    let b = t.1;
    if starts2(s, a, b, '>', '=') {
        match version_after(s, a + 2, b) { Some(v) => Some(ConstraintView::Ge(v)), None => None }
    } else if starts2(s, a, b, '<', '=') {
        match version_after(s, a + 2, b) { Some(v) => Some(ConstraintView::Le(v)), None => None }
    } else if starts2(s, a, b, '>', '>') {
        match version_after(s, a + 2, b) { Some(v) => Some(ConstraintView::Gt(v)), None => None }
    } else if starts2(s, a, b, '<', '<') {
        match version_after(s, a + 2, b) { Some(v) => Some(ConstraintView::Lt(v)), None => None }
    } else if starts2(s, a, b, '!', '=') {
        match version_after(s, a + 2, b) { Some(v) => Some(ConstraintView::Ne(v)), None => None }
    } else if starts1(s, a, b, '=') {
        match version_after(s, a + 1, b) { Some(v) => Some(ConstraintView::Eq(v)), None => None }
    } else if starts1(s, a, b, '>') {
        match version_after(s, a + 1, b) { Some(v) => Some(ConstraintView::Gt(v)), None => None }
    } else if starts1(s, a, b, '<') {
        match version_after(s, a + 1, b) { Some(v) => Some(ConstraintView::Lt(v)), None => None }
    } else {
        None
    }
}

/// Where the build-profile list (`<...>`) of `[a, b)` begins: the first `<`
/// outside the relation's parentheses, that is, one before the first `(`,
/// or one after the first `)` that follows it. A `<` inside the parentheses
/// belongs to the relation (`<<`, `<=`, `<`) and is no cut.
pub open spec fn profile_start(s: Seq<char>, a: int, b: int) -> Option<int> {
    match find_char(s, '(', a, b) {
        None => find_char(s, '<', a, b),
        Some(open) => match find_char(s, '<', a, open) {
            Some(i) => Some(i),
            None => match find_char(s, ')', open, b) {
                Some(close) => find_char(s, '<', close + 1, b),
                None => None,
            },
        },
    }
}

/// The text of an alternative once trimmed and cut before any architecture
/// list (`[`) and build-profile list ([`profile_start`]).
pub open spec fn clause_core(s: Seq<char>, lo: int, hi: int) -> (int, int) {
    let t0 = trim_range(s, lo, hi);
    let t1 = match find_char(s, '[', t0.0, t0.1) {
        Some(i) => trim_range(s, t0.0, i),
        None => t0,
    };
    match profile_start(s, t1.0, t1.1) {
        Some(i) => trim_range(s, t1.0, i),
        None => t1,
    }
}

/// An alternative whose parenthesis pair is out of order (the last `)` comes
/// before the first `(`) is one the parser cannot slice.
pub open spec fn clause_ok(s: Seq<char>, lo: int, hi: int) -> bool {
    let c = clause_core(s, lo, hi);
    match find_char(s, '(', c.0, c.1) {
        Some(open) => match rfind_char(s, ')', c.0, c.1) {
            Some(close) => open < close,
            None => true,
        },
        None => true,
    }
}

/// One alternative: `name`, `name:arch` (the qualifier is dropped), or
/// `name (op version)`.
pub open spec fn clause_spec(s: Seq<char>, lo: int, hi: int) -> Option<ClauseView> {
    let c = clause_core(s, lo, hi);
    if c.0 == c.1 {
        None
    } else {
        match find_char(s, '(', c.0, c.1) {
            Some(open) => match rfind_char(s, ')', c.0, c.1) {
                None => None,
                Some(close) => {
                    let n = trim_range(s, c.0, open);
                    match constraint_spec(s, open + 1, close) {
                        None => None,
                        Some(k) => if n.0 == n.1 {
                            None
                        } else {
                            Some(ClauseView { name: s.subrange(n.0, n.1), constraint: k })
                        },
                    }
                },
            },
            None => {
                let end = match find_char(s, ':', c.0, c.1) {
                    Some(i) => i,
                    None => c.1,
                };
                let n = trim_range(s, c.0, end);
                if n.0 == n.1 {
                    None
                } else {
                    Some(ClauseView { name: s.subrange(n.0, n.1), constraint: ConstraintView::Any })
                }
            },
        }
    }
}

/// One `|`-separated piece of a group: skipped when blank.
pub open spec fn alternative_spec(s: Seq<char>, r: (int, int)) -> Option<ClauseView> {
    let t = trim_range(s, r.0, r.1);
    if t.0 == t.1 {
        None
    } else {
        clause_spec(s, t.0, t.1)
    }
}

pub open spec fn alternative_ok(s: Seq<char>, r: (int, int)) -> bool {
    let t = trim_range(s, r.0, r.1);
    t.0 != t.1 ==> clause_ok(s, t.0, t.1)
}

/// The alternatives of one `,`-separated group.
pub open spec fn group_alternatives(s: Seq<char>, r: (int, int)) -> Seq<ClauseView> {
    let t = trim_range(s, r.0, r.1);
    split_ranges(s, '|', t.0, t.1).filter_map(|q: (int, int)| alternative_spec(s, q))
}

/// One group: skipped when blank or when none of its alternatives parses.
pub open spec fn group_spec(s: Seq<char>, r: (int, int)) -> Option<Seq<ClauseView>> {
    let t = trim_range(s, r.0, r.1);
    if t.0 == t.1 {
        None
    } else {
        let alts = group_alternatives(s, r);
        if alts.len() == 0 {
            None
        } else {
            Some(alts)
        }
    }
}

pub open spec fn group_ok(s: Seq<char>, r: (int, int)) -> bool {
    let t = trim_range(s, r.0, r.1);
    t.0 != t.1 ==> forall|k: int|
        0 <= k < split_ranges(s, '|', t.0, t.1).len() ==> alternative_ok(
            s,
            #[trigger] split_ranges(s, '|', t.0, t.1)[k],
        )
}

/// A `Depends`-style field: `,` separates AND groups, `|` separates the
/// alternatives of a group.
pub open spec fn depends_spec(s: Seq<char>) -> Seq<Seq<ClauseView>> {
    split_ranges(s, ',', 0, s.len() as int).filter_map(|r: (int, int)| group_spec(s, r))
}

/// Every alternative of the field can be sliced by the parser.
pub open spec fn depends_ok(s: Seq<char>) -> bool {
    forall|k: int|
        0 <= k < split_ranges(s, ',', 0, s.len() as int).len() ==> group_ok(
            s,
            #[trigger] split_ranges(s, ',', 0, s.len() as int)[k],
        )
}

fn starts_with2(s: &[char], a: usize, b: usize, c1: char, c2: char) -> (r: bool)
    requires
        a <= b <= s@.len(),
    ensures
        r == starts2(s@, a as int, b as int, c1, c2),
{
    b - a >= 2 && s[a] == c1 && s[a + 1] == c2
}

fn starts_with1(s: &[char], a: usize, b: usize, c1: char) -> (r: bool)
    requires
        a <= b <= s@.len(),
    ensures
        r == starts1(s@, a as int, b as int, c1),
{
    b - a >= 1 && s[a] == c1
}

fn version_in(s: &[char], a: usize, b: usize) -> (r: Option<String>)
    requires
        a <= b <= s@.len(),
    ensures
        match r {
            Some(v) => version_after(s@, a as int, b as int) == Some(v@),
            None => version_after(s@, a as int, b as int) is None,
        },
{
    let (x, y) = trim_bounds(s, a, b);
    if x == y {
        None
    } else {
        Some(string_of(s, x, y))
    }
}

/// Parses the relation inside the parentheses `s[lo..hi]`.
pub fn parse_constraint(s: &[char], lo: usize, hi: usize) -> (r: Option<VersionConstraint>)
    requires
        lo <= hi <= s@.len(),
    ensures
        match r {
            Some(c) => constraint_spec(s@, lo as int, hi as int) == Some(c@),
            None => constraint_spec(s@, lo as int, hi as int) is None,
        },
{
    let (a, b) = trim_bounds(s, lo, hi);
    if starts_with2(s, a, b, '>', '=') {
        match version_in(s, a + 2, b) { Some(v) => Some(VersionConstraint::Ge(v)), None => None }
    } else if starts_with2(s, a, b, '<', '=') {
        match version_in(s, a + 2, b) { Some(v) => Some(VersionConstraint::Le(v)), None => None }
    } else if starts_with2(s, a, b, '>', '>') {
        match version_in(s, a + 2, b) { Some(v) => Some(VersionConstraint::Gt(v)), None => None }
    } else if starts_with2(s, a, b, '<', '<') {
        match version_in(s, a + 2, b) { Some(v) => Some(VersionConstraint::Lt(v)), None => None }
    } else if starts_with2(s, a, b, '!', '=') {
        match version_in(s, a + 2, b) { Some(v) => Some(VersionConstraint::Ne(v)), None => None }
    } else if starts_with1(s, a, b, '=') {
        match version_in(s, a + 1, b) { Some(v) => Some(VersionConstraint::Eq(v)), None => None }
    } else if starts_with1(s, a, b, '>') {
        match version_in(s, a + 1, b) { Some(v) => Some(VersionConstraint::Gt(v)), None => None }
    } else if starts_with1(s, a, b, '<') {
        match version_in(s, a + 1, b) { Some(v) => Some(VersionConstraint::Lt(v)), None => None }
    } else {
        None
    }
}

fn core_bounds(s: &[char], lo: usize, hi: usize) -> (r: (usize, usize))
    requires
        lo <= hi <= s@.len(),
    ensures
        r.0 == clause_core(s@, lo as int, hi as int).0,
        r.1 == clause_core(s@, lo as int, hi as int).1,
        lo <= r.0 <= r.1 <= hi,
{
    let (a0, b0) = trim_bounds(s, lo, hi);
    proof {
        lemma_find_char(s@, '[', a0 as int, b0 as int);
    }
    let (a1, b1) = match find_in(s, '[', a0, b0) {
        Some(i) => trim_bounds(s, a0, i),
        None => (a0, b0),
    };
    match profile_cut(s, a1, b1) {
        Some(i) => trim_bounds(s, a1, i),
        None => (a1, b1),
    }
}

/// The build-profile cut of `s[a..b]`.
fn profile_cut(s: &[char], a: usize, b: usize) -> (r: Option<usize>)
    requires
        a <= b <= s@.len(),
    ensures
        match r {
            Some(i) => profile_start(s@, a as int, b as int) == Some(i as int) && a <= i <= b,
            None => profile_start(s@, a as int, b as int) is None,
        },
{
    proof {
        lemma_find_char(s@, '(', a as int, b as int);
        lemma_find_char(s@, '<', a as int, b as int);
    }
    match find_in(s, '(', a, b) {
        None => find_in(s, '<', a, b),
        Some(open) => {
            proof {
                lemma_find_char(s@, '<', a as int, open as int);
                lemma_find_char(s@, ')', open as int, b as int);
            }
            match find_in(s, '<', a, open) {
                Some(i) => Some(i),
                None => match find_in(s, ')', open, b) {
                    Some(close) => {
                        proof {
                            lemma_find_char(s@, '<', close as int + 1, b as int);
                        }
                        find_in(s, '<', close + 1, b)
                    },
                    None => None,
                },
            }
        },
    }
}

/// Parses one alternative `s[lo..hi]`.
pub fn parse_clause(s: &[char], lo: usize, hi: usize) -> (r: Option<DependencyClause>)
    requires
        lo <= hi <= s@.len(),
        clause_ok(s@, lo as int, hi as int),
    ensures
        match r {
            Some(c) => clause_spec(s@, lo as int, hi as int) == Some(c@),
            None => clause_spec(s@, lo as int, hi as int) is None,
        },
{
    let (a, b) = core_bounds(s, lo, hi);
    if a == b {
        return None;
    }
    proof {
        lemma_find_char(s@, '(', a as int, b as int);
        lemma_rfind_char(s@, ')', a as int, b as int);
        lemma_find_char(s@, ':', a as int, b as int);
    }
    match find_in(s, '(', a, b) {
        Some(open) => {
            let close = match rfind_in(s, ')', a, b) {
                Some(c) => c,
                None => return None,
            };
            let constraint = match parse_constraint(s, open + 1, close) {
                Some(k) => k,
                None => return None,
            };
            let (na, nb) = trim_bounds(s, a, open);
            if na == nb {
                return None;
            }
            Some(DependencyClause { package: PackageRef { name: string_of(s, na, nb) }, constraint })
        },
        None => {
            let end = match find_in(s, ':', a, b) {
                Some(i) => i,
                None => b,
            };
            let (na, nb) = trim_bounds(s, a, end);
            if na == nb {
                return None;
            }
            Some(
                DependencyClause {
                    package: PackageRef { name: string_of(s, na, nb) },
                    constraint: VersionConstraint::Any,
                },
            )
        },
    }
}

/// The alternatives of the group `r`.
fn parse_group(s: &[char], r: (usize, usize)) -> (out: Vec<DependencyClause>)
    requires
        r.0 <= r.1 <= s@.len(),
        group_ok(s@, (r.0 as int, r.1 as int)),
    ensures
        out@.map_values(|c: DependencyClause| c@) == group_alternatives(s@, (r.0 as int, r.1 as int)),
{
    let (a, b) = trim_bounds(s, r.0, r.1);
    let pieces = split_in(s, '|', a, b);
    let ghost q = split_ranges(s@, '|', a as int, b as int);
    let ghost f = |p: (int, int)| alternative_spec(s@, p);
    let mut out: Vec<DependencyClause> = Vec::new();
    let mut k: usize = 0;
    while k < pieces.len()
        invariant
            q == ranges_view(pieces@),
            q == split_ranges(s@, '|', a as int, b as int),
            a <= b <= s@.len(),
            trim_range(s@, r.0 as int, r.1 as int) == (a as int, b as int),
            group_ok(s@, (r.0 as int, r.1 as int)),
            forall|m: int| 0 <= m < pieces@.len() ==> a <= #[trigger] pieces@[m].0 <= pieces@[m].1 <= b,
            f == (|p: (int, int)| alternative_spec(s@, p)),
            k <= pieces.len(),
            out@.map_values(|c: DependencyClause| c@) == q.take(k as int).filter_map(f),
        decreases pieces.len() - k,
    {
        let (pa, pb) = pieces[k];
        proof {
            assert(q[k as int] == (pa as int, pb as int));
            assert(q.take(k + 1).drop_last() =~= q.take(k as int));
            let t = trim_range(s@, r.0 as int, r.1 as int);
            assert(split_ranges(s@, '|', t.0, t.1)[k as int] == q[k as int]);
            assert(alternative_ok(s@, q[k as int]));
        }
        let (ta, tb) = trim_bounds(s, pa, pb);
        if ta != tb {
            match parse_clause(s, ta, tb) {
                Some(c) => {
                    let ghost prev = out@;
                    out.push(c);
                    proof {
                        assert(out@.map_values(|c: DependencyClause| c@) =~= prev.map_values(
                            |c: DependencyClause| c@,
                        ).push(c@));
                    }
                },
                None => {},
            }
        }
        k = k + 1;
    }
    proof {
        assert(q.take(pieces@.len() as int) =~= q);
    }
    out
}

/// Parse a Debian `Depends` / `Pre-Depends` field into AND-of-OR expressions.
/// Architecture lists (`[...]`) and build profiles (`<...>` outside the
/// relation's parentheses, see [`profile_start`]) are dropped; the relations
/// `<<`, `<=`, `=`, `>=`, `>>` (and `!=`, `<`, `>`) are kept.
pub fn parse_depends_field(field: &str) -> (r: Vec<DependencyExpr>)
    requires
        depends_ok(field@),
    ensures
        exprs_view(r@) == depends_spec(field@),
{
    let chars = chars_of(field);
    let s = chars.as_slice();
    let groups = split_in(s, ',', 0, s.len());
    let ghost g = split_ranges(s@, ',', 0, s@.len() as int);
    let ghost f = |p: (int, int)| group_spec(s@, p);
    let mut out: Vec<DependencyExpr> = Vec::new();
    let mut k: usize = 0;
    while k < groups.len()
        invariant
            s@ == field@,
            g == ranges_view(groups@),
            g == split_ranges(s@, ',', 0, s@.len() as int),
            depends_ok(s@),
            forall|m: int| 0 <= m < groups@.len() ==> 0 <= #[trigger] groups@[m].0 <= groups@[m].1 <= s@.len(),
            f == (|p: (int, int)| group_spec(s@, p)),
            k <= groups.len(),
            exprs_view(out@) == g.take(k as int).filter_map(f),
        decreases groups.len() - k,
    {
        let (ga, gb) = groups[k];
        proof {
            assert(g[k as int] == (ga as int, gb as int));
            assert(g.take(k + 1).drop_last() =~= g.take(k as int));
            assert(group_ok(s@, g[k as int]));
        }
        let (ta, tb) = trim_bounds(s, ga, gb);
        if ta != tb {
            let alternatives = parse_group(s, (ga, gb));
            if alternatives.len() > 0 {
                let ghost prev = out@;
                let e = DependencyExpr { alternatives };
                out.push(e);
                proof {
                    assert(exprs_view(out@) =~= exprs_view(prev).push(e@));
                }
            } else {
                proof {
                    assert(group_alternatives(s@, g[k as int]) =~= Seq::<ClauseView>::empty());
                }
            }
        }
        k = k + 1;
    }
    proof {
        assert(g.take(groups@.len() as int) =~= g);
    }
    out
}


fn clause_is_ok(s: &[char], lo: usize, hi: usize) -> (r: bool)
    requires
        lo <= hi <= s@.len(),
    ensures
        r == clause_ok(s@, lo as int, hi as int),
{
    let (a, b) = core_bounds(s, lo, hi);
    proof {
        lemma_find_char(s@, '(', a as int, b as int);
        lemma_rfind_char(s@, ')', a as int, b as int);
    }
    match find_in(s, '(', a, b) {
        Some(open) => match rfind_in(s, ')', a, b) {
            Some(close) => open < close,
            None => true,
        },
        None => true,
    }
}

fn group_is_ok(s: &[char], r: (usize, usize)) -> (ok: bool)
    requires
        r.0 <= r.1 <= s@.len(),
    ensures
        ok == group_ok(s@, (r.0 as int, r.1 as int)),
{
    let (a, b) = trim_bounds(s, r.0, r.1);
    if a == b {
        return true;
    }
    let pieces = split_in(s, '|', a, b);
    let ghost q = split_ranges(s@, '|', a as int, b as int);
    let mut k: usize = 0;
    while k < pieces.len()
        invariant
            q == ranges_view(pieces@),
            q == split_ranges(s@, '|', a as int, b as int),
            a < b <= s@.len(),
            trim_range(s@, r.0 as int, r.1 as int) == (a as int, b as int),
            forall|m: int| 0 <= m < pieces@.len() ==> a <= #[trigger] pieces@[m].0 <= pieces@[m].1 <= b,
            k <= pieces.len(),
            forall|m: int| 0 <= m < k ==> alternative_ok(s@, #[trigger] q[m]),
        decreases pieces.len() - k,
    {
        let (pa, pb) = pieces[k];
        proof {
            assert(q[k as int] == (pa as int, pb as int));
        }
        let (ta, tb) = trim_bounds(s, pa, pb);
        if ta != tb && !clause_is_ok(s, ta, tb) {
            proof {
                assert(!alternative_ok(s@, q[k as int]));
                assert(split_ranges(s@, '|', a as int, b as int)[k as int] == q[k as int]);
            }
            return false;
        }
        k = k + 1;
    }
    true
}

/// Whether every alternative of a `Depends`-style field can be sliced by
/// the parser (see [`parse_depends_field`]).
pub fn depends_field_ok(field: &str) -> (r: bool)
    ensures
        r == depends_ok(field@),
{
    let chars = chars_of(field);
    let s = chars.as_slice();
    let groups = split_in(s, ',', 0, s.len());
    let ghost g = split_ranges(s@, ',', 0, s@.len() as int);
    let mut k: usize = 0;
    while k < groups.len()
        invariant
            s@ == field@,
            g == ranges_view(groups@),
            g == split_ranges(s@, ',', 0, s@.len() as int),
            forall|m: int| 0 <= m < groups@.len() ==> 0 <= #[trigger] groups@[m].0 <= groups@[m].1 <= s@.len(),
            k <= groups.len(),
            forall|m: int| 0 <= m < k ==> group_ok(s@, #[trigger] g[m]),
        decreases groups.len() - k,
    {
        let (ga, gb) = groups[k];
        proof {
            assert(g[k as int] == (ga as int, gb as int));
        }
        if !group_is_ok(s, (ga, gb)) {
            proof {
                assert(!group_ok(s@, g[k as int]));
            }
            return false;
        }
        k = k + 1;
    }
    true
}


// ---------------------------------------------------------------------------
// Copies

impl PackageRef {
    pub fn new(name: &str) -> (r: Self)
        ensures
            r@ == name@,
    {
        PackageRef { name: name.to_owned() }
    }

    /// A copy with the same name.
    pub fn duplicate(&self) -> (r: Self)
        ensures
            r@ == self@,
    {
        PackageRef { name: self.name.clone() }
    }
}

impl VersionConstraint {
    /// A copy with the same relation.
    pub fn duplicate(&self) -> (r: Self)
        ensures
            r@ == self@,
    {
        match self {
            VersionConstraint::Any => VersionConstraint::Any,
            VersionConstraint::Eq(v) => VersionConstraint::Eq(v.clone()),
            VersionConstraint::Ne(v) => VersionConstraint::Ne(v.clone()),
            VersionConstraint::Gt(v) => VersionConstraint::Gt(v.clone()),
            VersionConstraint::Ge(v) => VersionConstraint::Ge(v.clone()),
            VersionConstraint::Lt(v) => VersionConstraint::Lt(v.clone()),
            VersionConstraint::Le(v) => VersionConstraint::Le(v.clone()),
        }
    }
}

impl DependencyClause {
    /// A copy with the same package and relation.
    pub fn duplicate(&self) -> (r: Self)
        ensures
            r@ == self@,
    {
        DependencyClause { package: self.package.duplicate(), constraint: self.constraint.duplicate() }
    }
}

impl DependencyExpr {
    /// A copy with the same alternatives.
    pub fn duplicate(&self) -> (r: Self)
        ensures
            r@ == self@,
    {
        let mut alternatives: Vec<DependencyClause> = Vec::new();
        let mut k: usize = 0;
        while k < self.alternatives.len()
            invariant
                k <= self.alternatives@.len(),
                alternatives@.map_values(|c: DependencyClause| c@) == self.alternatives@.take(
                    k as int,
                ).map_values(|c: DependencyClause| c@),
            decreases self.alternatives@.len() - k,
        {
            let ghost prev = alternatives@;
            let c = self.alternatives[k].duplicate();
            alternatives.push(c);
            proof {
                assert(alternatives@.map_values(|c: DependencyClause| c@) =~= prev.map_values(
                    |c: DependencyClause| c@,
                ).push(c@));
                assert(self.alternatives@.take(k + 1).map_values(|c: DependencyClause| c@)
                    =~= self.alternatives@.take(k as int).map_values(|c: DependencyClause| c@).push(
                    self.alternatives@[k as int]@,
                ));
            }
            k = k + 1;
        }
        proof {
            assert(self.alternatives@.take(self.alternatives@.len() as int) =~= self.alternatives@);
        }
        DependencyExpr { alternatives }
    }
}

/// Copies of every expression of `v`.
pub fn duplicate_exprs(v: &[DependencyExpr]) -> (r: Vec<DependencyExpr>)
    ensures
        exprs_view(r@) == exprs_view(v@),
{
    let mut out: Vec<DependencyExpr> = Vec::new();
    let mut k: usize = 0;
    while k < v.len()
        invariant
            k <= v@.len(),
            exprs_view(out@) == exprs_view(v@.take(k as int)),
        decreases v@.len() - k,
    {
        let ghost prev = out@;
        let e = v[k].duplicate();
        out.push(e);
        proof {
            assert(exprs_view(out@) =~= exprs_view(prev).push(e@));
            assert(exprs_view(v@.take(k + 1)) =~= exprs_view(v@.take(k as int)).push(v@[k as int]@));
        }
        k = k + 1;
    }
    proof {
        assert(v@.take(v@.len() as int) =~= v@);
    }
    out
}

// ---------------------------------------------------------------------------
// Version relations and satisfaction

/// Whether `version` meets the relation `c`. A version `debversion` cannot
/// parse meets only `Any` and an `Eq` naming exactly that text; otherwise the
/// relation's version must parse too and the two are compared.
pub open spec fn constraint_matches(c: ConstraintView, version: Seq<char>) -> bool {
    if !debian_version_parses(version) {
        match c {
            ConstraintView::Any => true,
            ConstraintView::Eq(v) => v == version,
            _ => false,
        }
    } else {
        match c {
            ConstraintView::Any => true,
            ConstraintView::Eq(v) => debian_version_parses(v) && debian_version_order(version, v)
                == VersionOrder::Equal,
            ConstraintView::Ne(v) => debian_version_parses(v) && debian_version_order(version, v)
                != VersionOrder::Equal,
            ConstraintView::Gt(v) => debian_version_parses(v) && debian_version_order(version, v)
                == VersionOrder::Greater,
            ConstraintView::Ge(v) => debian_version_parses(v) && debian_version_order(version, v)
                != VersionOrder::Less,
            ConstraintView::Lt(v) => debian_version_parses(v) && debian_version_order(version, v)
                == VersionOrder::Less,
            ConstraintView::Le(v) => debian_version_parses(v) && debian_version_order(version, v)
                != VersionOrder::Greater,
        }
    }
}

/// `(name, version)` pairs as text.
pub open spec fn avail_view(a: Seq<(&str, &str)>) -> Seq<(Seq<char>, Seq<char>)> {
    a.map_values(|p: (&str, &str)| (p.0@, p.1@))
}

/// Some available package has the alternative's name and meets its relation.
pub open spec fn clause_satisfied(c: ClauseView, avail: Seq<(Seq<char>, Seq<char>)>) -> bool {
    exists|j: int| 0 <= j < avail.len() && #[trigger] avail[j].0 == c.name && constraint_matches(c.constraint, avail[j].1)
}

/// At least one alternative is satisfied.
pub open spec fn expr_satisfied(e: Seq<ClauseView>, avail: Seq<(Seq<char>, Seq<char>)>) -> bool {
    exists|i: int| 0 <= i < e.len() && #[trigger] clause_satisfied(e[i], avail)
}

/// The expressions of `es` that `avail` leaves unsatisfied, in order.
pub open spec fn unsatisfied(es: Seq<Seq<ClauseView>>, avail: Seq<(Seq<char>, Seq<char>)>) -> Seq<
    Seq<ClauseView>,
>
    decreases es.len(),
{
    if es.len() == 0 {
        es
    } else {
        let rest = unsatisfied(es.drop_last(), avail);
        if expr_satisfied(es.last(), avail) {
            rest
        } else {
            rest.push(es.last())
        }
    }
}

impl VersionConstraint {
    /// Whether `version` meets this relation.
    pub fn matches(&self, version: &str) -> (r: bool)
        ensures
            r == constraint_matches(self@, version@),
    {
        let have = match DebianVersion::parse(version) {
            Some(h) => h,
            None => {
                return match self {
                    VersionConstraint::Any => true,
                    VersionConstraint::Eq(v) => same_text(v.as_str(), version),
                    _ => false,
                };
            },
        };
        let need_text = match self {
            VersionConstraint::Any => return true,
            VersionConstraint::Eq(v) => v,
            VersionConstraint::Ne(v) => v,
            VersionConstraint::Gt(v) => v,
            VersionConstraint::Ge(v) => v,
            VersionConstraint::Lt(v) => v,
            VersionConstraint::Le(v) => v,
        };
        let need = match DebianVersion::parse(need_text.as_str()) {
            Some(n) => n,
            None => return false,
        };
        let o = have.order(&need);
        match self {
            VersionConstraint::Any => true,
            VersionConstraint::Eq(_) => matches!(o, VersionOrder::Equal),
            VersionConstraint::Ne(_) => !matches!(o, VersionOrder::Equal),
            VersionConstraint::Gt(_) => matches!(o, VersionOrder::Greater),
            VersionConstraint::Ge(_) => !matches!(o, VersionOrder::Less),
            VersionConstraint::Lt(_) => matches!(o, VersionOrder::Less),
            VersionConstraint::Le(_) => !matches!(o, VersionOrder::Greater),
        }
    }
}

fn clause_is_satisfied(c: &DependencyClause, available: &[(&str, &str)]) -> (r: bool)
    ensures
        r == clause_satisfied(c@, avail_view(available@)),
{
    let ghost av = avail_view(available@);
    let name = chars_of(c.package.name.as_str());
    let mut j: usize = 0;
    while j < available.len()
        invariant
            j <= available@.len(),
            av == avail_view(available@),
            name@ == c.package.name@,
            forall|m: int|
                0 <= m < j ==> !(#[trigger] av[m].0 == c@.name && constraint_matches(
                    c@.constraint,
                    av[m].1,
                )),
        decreases available@.len() - j,
    {
        let (n, v) = available[j];
        let nc = chars_of(n);
        if same_chars(nc.as_slice(), 0, nc.len(), name.as_slice(), 0, name.len()) {
            proof {
                assert(nc@.subrange(0, nc@.len() as int) =~= nc@);
                assert(name@.subrange(0, name@.len() as int) =~= name@);
            }
            if c.constraint.matches(v) {
                proof {
                    assert(av[j as int].0 == c@.name);
                }
                return true;
            }
        } else {
            proof {
                assert(nc@.subrange(0, nc@.len() as int) =~= nc@);
                assert(name@.subrange(0, name@.len() as int) =~= name@);
            }
        }
        j = j + 1;
    }
    false
}

impl DependencyExpr {
    /// True when at least one alternative is satisfied by `available`.
    pub fn is_satisfied_by(&self, available: &[(&str, &str)]) -> (r: bool)
        ensures
            r == expr_satisfied(self@, avail_view(available@)),
    {
        let ghost av = avail_view(available@);
        let mut i: usize = 0;
        while i < self.alternatives.len()
            invariant
                i <= self.alternatives@.len(),
                av == avail_view(available@),
                forall|m: int| 0 <= m < i ==> !#[trigger] clause_satisfied(self@[m], av),
            decreases self.alternatives@.len() - i,
        {
            if clause_is_satisfied(&self.alternatives[i], available) {
                proof {
                    assert(self@[i as int] == self.alternatives@[i as int]@);
                }
                return true;
            }
            proof {
                assert(self@[i as int] == self.alternatives@[i as int]@);
            }
            i = i + 1;
        }
        false
    }
}

/// Every `(name, version)` pair of `a1` is also one of `a2`.
pub open spec fn avail_within(a1: Seq<(Seq<char>, Seq<char>)>, a2: Seq<(Seq<char>, Seq<char>)>) -> bool {
    forall|j: int| 0 <= j < a1.len() ==> #[trigger] a2.contains(a1[j])
}

/// `x` is `y` with some elements left out, the rest in order.
pub open spec fn subsequence<A>(x: Seq<A>, y: Seq<A>) -> bool
    decreases y.len(),
{
    if x.len() == 0 {
        true
    } else if y.len() == 0 {
        false
    } else if x.last() == y.last() {
        subsequence(x.drop_last(), y.drop_last())
    } else {
        subsequence(x, y.drop_last())
    }
}

proof fn lemma_subsequence_push<A>(x: Seq<A>, y: Seq<A>, e: A)
    requires
        subsequence(x, y),
    ensures
        subsequence(x, y.push(e)),
    decreases y.len(), 1int,
{
    assert(y.push(e).drop_last() =~= y);
    if x.len() > 0 && x.last() == e {
        lemma_subsequence_drop_last(x, y);
    }
}

proof fn lemma_subsequence_drop_last<A>(x: Seq<A>, y: Seq<A>)
    requires
        subsequence(x, y),
        x.len() > 0,
    ensures
        subsequence(x.drop_last(), y),
    decreases y.len(), 0int,
{
    if x.last() == y.last() {
        lemma_subsequence_push(x.drop_last(), y.drop_last(), y.last());
    } else {
        lemma_subsequence_drop_last(x, y.drop_last());
        lemma_subsequence_push(x.drop_last(), y.drop_last(), y.last());
    }
    assert(y.drop_last().push(y.last()) =~= y);
}

/// An expression that some available set satisfies is satisfied by every
/// set that holds those packages too.
pub proof fn lemma_more_available_still_satisfies(
    e: Seq<ClauseView>,
    a1: Seq<(Seq<char>, Seq<char>)>,
    a2: Seq<(Seq<char>, Seq<char>)>,
)
    requires
        avail_within(a1, a2),
        expr_satisfied(e, a1),
    ensures
        expr_satisfied(e, a2),
{
    let i = choose|i: int| 0 <= i < e.len() && #[trigger] clause_satisfied(e[i], a1);
    let j = choose|j: int|
        0 <= j < a1.len() && #[trigger] a1[j].0 == e[i].name && constraint_matches(
            e[i].constraint,
            a1[j].1,
        );
    assert(a2.contains(a1[j]));
    let k = choose|k: int| 0 <= k < a2.len() && a2[k] == a1[j];
    assert(a2[k].0 == e[i].name);
    assert(clause_satisfied(e[i], a2));
}

/// More available packages never add a missing dependency: the expressions
/// left unsatisfied by a larger available set are some of those left
/// unsatisfied by a smaller one, in the same order, and when the smaller set
/// satisfies everything so does the larger.
pub proof fn lemma_more_available_fewer_missing(
    es: Seq<Seq<ClauseView>>,
    a1: Seq<(Seq<char>, Seq<char>)>,
    a2: Seq<(Seq<char>, Seq<char>)>,
)
    requires
        avail_within(a1, a2),
    ensures
        subsequence(unsatisfied(es, a2), unsatisfied(es, a1)),
        unsatisfied(es, a1).len() == 0 ==> unsatisfied(es, a2).len() == 0,
    decreases es.len(),
{
    if es.len() > 0 {
        let prev = es.drop_last();
        lemma_more_available_fewer_missing(prev, a1, a2);
        let r1 = unsatisfied(prev, a1);
        let r2 = unsatisfied(prev, a2);
        let l = es.last();
        if expr_satisfied(l, a1) {
            lemma_more_available_still_satisfies(l, a1, a2);
        } else if expr_satisfied(l, a2) {
            lemma_subsequence_push(r2, r1, l);
        } else {
            assert(r2.push(l).drop_last() =~= r2);
            assert(r1.push(l).drop_last() =~= r1);
        }
    }
}

/// Check whether every dependency expression is satisfied by the available
/// package set: `Err` lists the unsatisfied ones, in order.
///
/// `available` is `(name, version)` pairs — published packages and/or
/// Provides aliases mapped to the providing package's version.
pub fn satisfies(depends: &[DependencyExpr], available: &[(&str, &str)]) -> (r: Result<
    (),
    Vec<DependencyExpr>,
>)
    ensures
        match r {
            Ok(()) => unsatisfied(exprs_view(depends@), avail_view(available@)).len() == 0,
            Err(missing) => exprs_view(missing@) == unsatisfied(
                exprs_view(depends@),
                avail_view(available@),
            ) && missing@.len() > 0,
        },
{
    let ghost av = avail_view(available@);
    let mut missing: Vec<DependencyExpr> = Vec::new();
    let mut k: usize = 0;
    while k < depends.len()
        invariant
            k <= depends@.len(),
            av == avail_view(available@),
            exprs_view(missing@) == unsatisfied(exprs_view(depends@.take(k as int)), av),
        decreases depends@.len() - k,
    {
        proof {
            assert(exprs_view(depends@.take(k + 1)).drop_last() =~= exprs_view(depends@.take(k as int)));
        }
        if !depends[k].is_satisfied_by(available) {
            let ghost prev = missing@;
            missing.push(depends[k].duplicate());
            proof {
                assert(exprs_view(missing@) =~= exprs_view(prev).push(depends@[k as int]@));
            }
        }
        k = k + 1;
    }
    proof {
        assert(depends@.take(depends@.len() as int) =~= depends@);
    }
    if missing.len() == 0 {
        Ok(())
    } else {
        Err(missing)
    }
}


// ---------------------------------------------------------------------------
// Control-file syntax

/// The Debian relation operator of a constrained relation.
pub open spec fn op_text(c: ConstraintView) -> Seq<char> {
    match c {
        ConstraintView::Any => seq![],
        ConstraintView::Eq(_) => seq!['='],
        ConstraintView::Ne(_) => seq!['!', '='],
        ConstraintView::Gt(_) => seq!['>', '>'],
        ConstraintView::Ge(_) => seq!['>', '='],
        ConstraintView::Lt(_) => seq!['<', '<'],
        ConstraintView::Le(_) => seq!['<', '='],
    }
}

/// The version of a constrained relation.
pub open spec fn version_text(c: ConstraintView) -> Seq<char> {
    match c {
        ConstraintView::Any => seq![],
        ConstraintView::Eq(v) => v,
        ConstraintView::Ne(v) => v,
        ConstraintView::Gt(v) => v,
        ConstraintView::Ge(v) => v,
        ConstraintView::Lt(v) => v,
        ConstraintView::Le(v) => v,
    }
}

/// `pkg` or `pkg (op version)`.
pub open spec fn clause_text(c: ClauseView) -> Seq<char> {
    match c.constraint {
        ConstraintView::Any => c.name,
        _ => c.name + seq![' ', '('] + op_text(c.constraint) + seq![' '] + version_text(c.constraint)
            + seq![')'],
    }
}

/// Alternatives joined by ` | `.
pub open spec fn expr_text(e: Seq<ClauseView>) -> Seq<char>
    decreases e.len(),
{
    if e.len() == 0 {
        seq![]
    } else if e.len() == 1 {
        clause_text(e[0])
    } else {
        expr_text(e.drop_last()) + seq![' ', '|', ' '] + clause_text(e.last())
    }
}

/// Appends `t` to `out`.
fn append_text(out: &mut String, t: &str)
    ensures
        final(out)@ == old(out)@ + t@,
{
    let cs = chars_of(t);
    let mut k: usize = 0;
    while k < cs.len()
        invariant
            k <= cs@.len(),
            cs@ == t@,
            out@ == old(out)@ + cs@.take(k as int),
        decreases cs@.len() - k,
    {
        crate::text::push_char(out, cs[k]);
        proof {
            assert(cs@.take(k + 1) =~= cs@.take(k as int).push(cs@[k as int]));
        }
        k = k + 1;
    }
    proof {
        assert(cs@.take(cs@.len() as int) =~= cs@);
    }
}

impl VersionConstraint {
    /// Debian relation operator and version, if constrained (`(">=", "1.0")`).
    pub fn op_version(&self) -> (r: Option<(&'static str, &str)>)
        ensures
            r is None <==> self@ is Any,
            r matches Some(p) ==> p.0@ == op_text(self@) && p.1@ == version_text(self@),
    {
        proof {
            reveal_strlit("=");
            reveal_strlit("!=");
            reveal_strlit(">>");
            reveal_strlit(">=");
            reveal_strlit("<<");
            reveal_strlit("<=");
        }
        match self {
            VersionConstraint::Any => None,
            VersionConstraint::Eq(v) => Some(("=", v.as_str())),
            VersionConstraint::Ne(v) => Some(("!=", v.as_str())),
            VersionConstraint::Gt(v) => Some((">>", v.as_str())),
            VersionConstraint::Ge(v) => Some((">=", v.as_str())),
            VersionConstraint::Lt(v) => Some(("<<", v.as_str())),
            VersionConstraint::Le(v) => Some(("<=", v.as_str())),
        }
    }
}

impl DependencyClause {
    /// Debian control syntax: `pkg` or `pkg (>= 1.0)`.
    pub fn to_string(&self) -> (r: String)
        ensures
            r@ == clause_text(self@),
    {
        let mut out = self.package.name.clone();
        match self.constraint.op_version() {
            Some((op, version)) => {
                crate::text::push_char(&mut out, ' ');
                crate::text::push_char(&mut out, '(');
                append_text(&mut out, op);
                crate::text::push_char(&mut out, ' ');
                append_text(&mut out, version);
                crate::text::push_char(&mut out, ')');
                proof {
                    assert(out@ =~= clause_text(self@));
                }
            },
            None => {},
        }
        out
    }
}

impl DependencyExpr {
    /// Debian control syntax: alternatives joined by ` | `.
    pub fn to_string(&self) -> (r: String)
        ensures
            r@ == expr_text(self@),
    {
        let mut out = String::new();
        let mut i: usize = 0;
        while i < self.alternatives.len()
            invariant
                i <= self.alternatives@.len(),
                out@ == expr_text(self@.take(i as int)),
            decreases self.alternatives@.len() - i,
        {
            proof {
                assert(self@.take(i + 1).drop_last() =~= self@.take(i as int));
                assert(self@[i as int] == self.alternatives@[i as int]@);
            }
            if i > 0 {
                crate::text::push_char(&mut out, ' ');
                crate::text::push_char(&mut out, '|');
                crate::text::push_char(&mut out, ' ');
            }
            let t = self.alternatives[i].to_string();
            append_text(&mut out, t.as_str());
            proof {
                if i == 0 {
                    assert(out@ =~= expr_text(self@.take(i + 1)));
                } else {
                    assert(out@ =~= expr_text(self@.take(i + 1)));
                }
            }
            i = i + 1;
        }
        proof {
            assert(self@.take(self.alternatives@.len() as int) =~= self@);
        }
        out
    }
}

/// Each relation is the Debian version order between the available version
/// and the required one: for two versions that parse, `=` holds exactly when
/// they compare equal, `>>` when the available one is greater, `<<` when it
/// is less, `>=` when it is not less, `<=` when it is not greater, and `!=`
/// when they do not compare equal; no relation at all always holds.
pub proof fn lemma_relations_follow_version_order(have: Seq<char>, need: Seq<char>)
    requires
        debian_version_parses(have),
        debian_version_parses(need),
    ensures
        constraint_matches(ConstraintView::Any, have),
        constraint_matches(ConstraintView::Eq(need), have) <==> debian_version_order(have, need)
            == VersionOrder::Equal,
        constraint_matches(ConstraintView::Ne(need), have) <==> debian_version_order(have, need)
            != VersionOrder::Equal,
        constraint_matches(ConstraintView::Gt(need), have) <==> debian_version_order(have, need)
            == VersionOrder::Greater,
        constraint_matches(ConstraintView::Lt(need), have) <==> debian_version_order(have, need)
            == VersionOrder::Less,
        constraint_matches(ConstraintView::Ge(need), have) <==> debian_version_order(have, need)
            != VersionOrder::Less,
        constraint_matches(ConstraintView::Le(need), have) <==> debian_version_order(have, need)
            != VersionOrder::Greater,
{
}

/// A version `debversion` does not read meets no relation but "any" and an
/// `=` written with exactly the same text; and a relation whose required
/// version does not parse is met by no version that parses.
pub proof fn lemma_relations_on_unparsed_versions(have: Seq<char>, need: Seq<char>)
    ensures
        !debian_version_parses(have) ==> (constraint_matches(ConstraintView::Eq(need), have)
            <==> need == have),
        !debian_version_parses(have) ==> constraint_matches(ConstraintView::Any, have),
        !debian_version_parses(have) ==> !constraint_matches(ConstraintView::Ne(need), have)
            && !constraint_matches(ConstraintView::Gt(need), have) && !constraint_matches(
            ConstraintView::Ge(need),
            have,
        ) && !constraint_matches(ConstraintView::Lt(need), have) && !constraint_matches(
            ConstraintView::Le(need),
            have,
        ),
        debian_version_parses(have) && !debian_version_parses(need) ==> !constraint_matches(
            ConstraintView::Eq(need),
            have,
        ) && !constraint_matches(ConstraintView::Ne(need), have) && !constraint_matches(
            ConstraintView::Gt(need),
            have,
        ) && !constraint_matches(ConstraintView::Ge(need), have) && !constraint_matches(
            ConstraintView::Lt(need),
            have,
        ) && !constraint_matches(ConstraintView::Le(need), have),
{
}

} // verus!
