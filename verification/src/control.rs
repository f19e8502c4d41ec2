//! Debian control files: the fields a `.deb` carries in its `control`
//! member, and the published-package record built from them.

use vstd::prelude::*;

use crate::depends::{
    exprs_view, depends_field_ok, depends_ok, depends_spec, duplicate_exprs, parse_depends_field, ClauseView,
    DependencyExpr, PackageRef,
};
use crate::text::{
    chars_of, find_char, find_in, lemma_find_char, ranges_view, skip_ws, string_of,
    trim, trim_bounds, trim_range, same_text,
};

verus! {

/// Fields extracted from a `.deb` control file.
#[derive(Debug, Clone, PartialEq, Eq)]
pub struct DebControl {
    pub package: String,
    pub version: String,
    pub architecture: String,
    pub depends: Vec<DependencyExpr>,
    pub pre_depends: Vec<DependencyExpr>,
    pub provides: Vec<PackageRef>,
    pub description: Option<String>,
}

/// Abstract control record.
pub struct ControlView {
    pub package: Seq<char>,
    pub version: Seq<char>,
    pub architecture: Seq<char>,
    pub depends: Seq<Seq<ClauseView>>,
    pub pre_depends: Seq<Seq<ClauseView>>,
    pub provides: Seq<Seq<char>>,
    pub description: Option<Seq<char>>,
}

pub open spec fn opt_view(o: Option<String>) -> Option<Seq<char>> {
    match o {
        Some(s) => Some(s@),
        None => None,
    }
}

pub open spec fn refs_view(v: Seq<PackageRef>) -> Seq<Seq<char>> {
    v.map_values(|p: PackageRef| p@)
}

impl View for DebControl {
    type V = ControlView;

    open spec fn view(&self) -> ControlView {
        ControlView {
            package: self.package@,
            version: self.version@,
            architecture: self.architecture@,
            depends: exprs_view(self.depends@),
            pre_depends: exprs_view(self.pre_depends@),
            provides: refs_view(self.provides@),
            description: opt_view(self.description),
        }
    }
}

// ---------------------------------------------------------------------------
// Lines and fields

/// `str::lines`: split at `\n`, dropping a `\r` right before it; a final
/// line ending is optional and yields no empty line.
pub open spec fn line_ranges(s: Seq<char>, i: int) -> Seq<(int, int)>
    decreases s.len() - i + 1,
{
    if i < 0 || i >= s.len() {
        seq![]
    } else {
        match find_char(s, '\n', i, s.len() as int) {
            None => seq![(i, s.len() as int)],
            Some(j) => {
                proof {
                    lemma_find_char(s, '\n', i, s.len() as int);
                }
                if i <= j {
                    let e = if j > i && s[j - 1] == '\r' {
                        j - 1
                    } else {
                        j
                    };
                    seq![(i, e)] + line_ranges(s, j + 1)
                } else {
                    seq![]
                }
            },
        }
    }
}

/// One `Key: value` field; `value` holds continuation lines joined by `\n`.
pub struct FieldView {
    pub key: Seq<char>,
    pub value: Seq<char>,
}

/// A continuation line starts with a space.
pub open spec fn is_continuation(s: Seq<char>, l: (int, int)) -> bool {
    l.0 < l.1 && s[l.0] == ' '
}

/// A non-blank line with a colon opens a field: the key is trimmed, the
/// value loses its leading whitespace.
pub open spec fn header_of(s: Seq<char>, l: (int, int)) -> Option<FieldView> {
    let t = trim_range(s, l.0, l.1);
    if t.0 == t.1 {
        None
    } else {
        match find_char(s, ':', l.0, l.1) {
            None => None,
            Some(c) => {
                let k = trim_range(s, l.0, c);
                Some(
                    FieldView {
                        key: s.subrange(k.0, k.1),
                        value: s.subrange(skip_ws(s, c + 1, l.1), l.1),
                    },
                )
            },
        }
    }
}

/// A continuation line joins the value with `\n` (none when it is empty).
pub open spec fn append_continuation(v: Seq<char>, rest: Seq<char>) -> Seq<char> {
    if v.len() == 0 {
        rest
    } else {
        v + seq!['\n'] + rest
    }
}

/// Fields closed so far, and the field still open.
pub struct ScanState {
    pub done: Seq<FieldView>,
    pub open: Option<FieldView>,
}

pub open spec fn scan_step(s: Seq<char>, st: ScanState, l: (int, int)) -> ScanState {
    if is_continuation(s, l) {
        match st.open {
            Some(f) => ScanState {
                done: st.done,
                open: Some(
                    FieldView {
                        key: f.key,
                        value: append_continuation(f.value, s.subrange(l.0 + 1, l.1)),
                    },
                ),
            },
            None => st,
        }
    } else {
        let done = match st.open {
            Some(f) => st.done.push(f),
            None => st.done,
        };
        ScanState { done, open: header_of(s, l) }
    }
}

pub open spec fn scan(s: Seq<char>, ls: Seq<(int, int)>) -> ScanState
    decreases ls.len(),
{
    if ls.len() == 0 {
        ScanState { done: seq![], open: None }
    } else {
        scan_step(s, scan(s, ls.drop_last()), ls.last())
    }
}

pub open spec fn close(st: ScanState) -> Seq<FieldView> {
    match st.open {
        Some(f) => st.done.push(f),
        None => st.done,
    }
}

/// The fields of a control text, in order.
pub open spec fn control_fields(s: Seq<char>) -> Seq<FieldView> {
    close(scan(s, line_ranges(s, 0)))
}

// ---------------------------------------------------------------------------
// Field values

/// What the fields seen so far have set.
pub struct ControlAcc {
    pub package: Option<Seq<char>>,
    pub version: Option<Seq<char>>,
    pub architecture: Option<Seq<char>>,
    pub depends: Seq<Seq<ClauseView>>,
    pub pre_depends: Seq<Seq<ClauseView>>,
    pub provides: Seq<Seq<char>>,
    pub description: Option<Seq<char>>,
}

/// The package names of every alternative, in order.
pub open spec fn provided_names(es: Seq<Seq<ClauseView>>) -> Seq<Seq<char>>
    decreases es.len(),
{
    if es.len() == 0 {
        seq![]
    } else {
        provided_names(es.drop_last()) + es.last().map_values(|c: ClauseView| c.name)
    }
}

/// The first line of the trimmed value, trimmed; `None` when that is empty.
pub open spec fn description_of(v: Seq<char>) -> Option<Seq<char>> {
    let t = trim_range(v, 0, v.len() as int);
    let e = match find_char(v, '\n', t.0, t.1) {
        Some(i) => i,
        None => t.1,
    };
    let d = trim_range(v, t.0, e);
    if d.0 == d.1 {
        None
    } else {
        Some(v.subrange(d.0, d.1))
    }
}

/// The keys the parser reads.
pub open spec fn is_depends_key(k: Seq<char>) -> bool {
    k == "Depends"@ || k == "Pre-Depends"@ || k == "Provides"@
}

/// One field sets the slot of its key; a later field of the same key
/// replaces an earlier one, except that a `Description` whose first line is
/// blank leaves the previous one.
pub open spec fn apply_field(acc: ControlAcc, f: FieldView) -> ControlAcc {
    let v = trim(f.value);
    if f.key == "Package"@ {
        ControlAcc { package: Some(v), ..acc }
    } else if f.key == "Version"@ {
        ControlAcc { version: Some(v), ..acc }
    } else if f.key == "Architecture"@ {
        ControlAcc { architecture: Some(v), ..acc }
    } else if f.key == "Depends"@ {
        ControlAcc { depends: depends_spec(v), ..acc }
    } else if f.key == "Pre-Depends"@ {
        ControlAcc { pre_depends: depends_spec(v), ..acc }
    } else if f.key == "Provides"@ {
        ControlAcc { provides: provided_names(depends_spec(v)), ..acc }
    } else if f.key == "Description"@ {
        match description_of(f.value) {
            Some(d) => ControlAcc { description: Some(d), ..acc },
            None => acc,
        }
    } else {
        acc
    }
}

pub open spec fn apply_fields(fs: Seq<FieldView>) -> ControlAcc
    decreases fs.len(),
{
    if fs.len() == 0 {
        ControlAcc {
            package: None,
            version: None,
            architecture: None,
            depends: seq![],
            pre_depends: seq![],
            provides: seq![],
            description: None,
        }
    } else {
        apply_field(apply_fields(fs.drop_last()), fs.last())
    }
}

/// The dependency-style fields of the text can all be parsed.
pub open spec fn control_ok(s: Seq<char>) -> bool {
    forall|i: int|
        0 <= i < control_fields(s).len() && is_depends_key(#[trigger] control_fields(s)[i].key)
            ==> depends_ok(trim(control_fields(s)[i].value))
}

/// The record a control text describes: `Package` and `Version` are
/// required, `Architecture` defaults to `all`.
pub open spec fn control_spec(s: Seq<char>) -> Result<ControlView, Seq<char>> {
    let acc = apply_fields(control_fields(s));
    match acc.package {
        None => Err("missing Package field"@),
        Some(p) => match acc.version {
            None => Err("missing Version field"@),
            Some(v) => Ok(
                ControlView {
                    package: p,
                    version: v,
                    architecture: match acc.architecture {
                        Some(a) => a,
                        None => "all"@,
                    },
                    depends: acc.depends,
                    pre_depends: acc.pre_depends,
                    provides: acc.provides,
                    description: acc.description,
                },
            ),
        },
    }
}


// ---------------------------------------------------------------------------
// Parsing

proof fn lemma_line_ranges_bounds(s: Seq<char>, i: int)
    requires
        0 <= i,
    ensures
        forall|k: int|
            0 <= k < line_ranges(s, i).len() ==> i <= #[trigger] line_ranges(s, i)[k].0
                <= line_ranges(s, i)[k].1 <= s.len(),
    decreases s.len() - i + 1,
{
    if i < s.len() {
        lemma_find_char(s, '\n', i, s.len() as int);
        match find_char(s, '\n', i, s.len() as int) {
            None => {},
            Some(j) => {
                lemma_line_ranges_bounds(s, j + 1);
                let e = if j > i && s[j - 1] == '\r' {
                    j - 1
                } else {
                    j
                };
                let rest = line_ranges(s, j + 1);
                assert(line_ranges(s, i) =~= seq![(i, e)] + rest);
                assert forall|k: int| 0 <= k < line_ranges(s, i).len() implies i
                    <= #[trigger] line_ranges(s, i)[k].0 <= line_ranges(s, i)[k].1 <= s.len() by {
                    if k > 0 {
                        assert(line_ranges(s, i)[k] == rest[k - 1]);
                    }
                }
            },
        }
    }
}

/// The line ranges of `s`.
fn line_bounds(s: &[char]) -> (r: Vec<(usize, usize)>)
    ensures
        ranges_view(r@) == line_ranges(s@, 0),
        forall|k: int| 0 <= k < r@.len() ==> #[trigger] r@[k].0 <= r@[k].1 <= s@.len(),
{
    let mut out: Vec<(usize, usize)> = Vec::new();
    let mut i: usize = 0;
    proof {
        assert(ranges_view(out@) + line_ranges(s@, 0) =~= line_ranges(s@, 0));
    }
    while i < s.len()
        invariant
            i <= s@.len(),
            ranges_view(out@) + line_ranges(s@, i as int) == line_ranges(s@, 0),
            forall|k: int| 0 <= k < out@.len() ==> #[trigger] out@[k].0 <= out@[k].1 <= s@.len(),
        decreases s@.len() - i,
    {
        proof {
            lemma_find_char(s@, '\n', i as int, s@.len() as int);
        }
        let ghost prev = out@;
        match find_in(s, '\n', i, s.len()) {
            None => {
                out.push((i, s.len()));
                proof {
                    assert(ranges_view(out@) =~= ranges_view(prev) + seq![(i as int, s@.len() as int)]);
                    assert(line_ranges(s@, s@.len() as int) =~= Seq::<(int, int)>::empty());
                    assert(ranges_view(out@) + line_ranges(s@, s@.len() as int) =~= line_ranges(s@, 0));
                }
                i = s.len();
            },
            Some(j) => {
                let e = if j > i && s[j - 1] == '\r' {
                    j - 1
                } else {
                    j
                };
                out.push((i, e));
                proof {
                    assert(ranges_view(out@) =~= ranges_view(prev) + seq![(i as int, e as int)]);
                    assert(line_ranges(s@, i as int) =~= seq![(i as int, e as int)] + line_ranges(
                        s@,
                        j + 1,
                    ));
                    assert(ranges_view(out@) + line_ranges(s@, j + 1) =~= line_ranges(s@, 0));
                }
                i = j + 1;
            },
        }
    }
    proof {
        assert(line_ranges(s@, i as int) =~= Seq::<(int, int)>::empty());
        assert(ranges_view(out@) =~= line_ranges(s@, 0));
    }
    out
}

/// Fields of a control text being collected.
struct ControlSlots {
    package: Option<String>,
    version: Option<String>,
    architecture: Option<String>,
    depends: Vec<DependencyExpr>,
    pre_depends: Vec<DependencyExpr>,
    provides: Vec<PackageRef>,
    description: Option<String>,
}

impl View for ControlSlots {
    type V = ControlAcc;

    closed spec fn view(&self) -> ControlAcc {
        ControlAcc {
            package: opt_view(self.package),
            version: opt_view(self.version),
            architecture: opt_view(self.architecture),
            depends: exprs_view(self.depends@),
            pre_depends: exprs_view(self.pre_depends@),
            provides: refs_view(self.provides@),
            description: opt_view(self.description),
        }
    }
}

/// The package names of every alternative of `es`.
fn provided_refs(es: &Vec<DependencyExpr>) -> (r: Vec<PackageRef>)
    ensures
        refs_view(r@) == provided_names(exprs_view(es@)),
{
    let ghost ev = exprs_view(es@);
    let mut out: Vec<PackageRef> = Vec::new();
    let mut i: usize = 0;
    while i < es.len()
        invariant
            i <= es@.len(),
            ev == exprs_view(es@),
            refs_view(out@) == provided_names(ev.take(i as int)),
        decreases es@.len() - i,
    {
        let alts = &es[i].alternatives;
        let ghost base = out@;
        let ghost names = ev[i as int].map_values(|c: ClauseView| c.name);
        let mut j: usize = 0;
        while j < alts.len()
            invariant
                i < es@.len(),
                ev == exprs_view(es@),
                alts@ == es@[i as int].alternatives@,
                names == ev[i as int].map_values(|c: ClauseView| c.name),
                j <= alts@.len(),
                refs_view(out@) == refs_view(base) + names.take(j as int),
            decreases alts@.len() - j,
        {
            let ghost prev = out@;
            let p = alts[j].package.duplicate();
            out.push(p);
            proof {
                assert(ev[i as int] == es@[i as int]@);
                assert(names[j as int] == alts@[j as int].package@);
                assert(refs_view(out@) =~= refs_view(prev).push(p@));
                assert(names.take(j + 1) =~= names.take(j as int).push(names[j as int]));
            }
            j = j + 1;
        }
        proof {
            assert(ev[i as int] == es@[i as int]@);
            assert(names.take(alts@.len() as int) =~= names);
            assert(ev.take(i + 1).drop_last() =~= ev.take(i as int));
            assert(ev.take(i + 1).last() == ev[i as int]);
        }
        i = i + 1;
    }
    proof {
        assert(ev.take(es@.len() as int) =~= ev);
    }
    out
}

impl ControlSlots {
    fn new() -> (r: Self)
        ensures
            r@ == apply_fields(seq![]),
    {
        let r = ControlSlots {
            package: None,
            version: None,
            architecture: None,
            depends: Vec::new(),
            pre_depends: Vec::new(),
            provides: Vec::new(),
            description: None,
        };
        proof {
            assert(exprs_view(r.depends@) =~= seq![]);
            assert(exprs_view(r.pre_depends@) =~= seq![]);
            assert(refs_view(r.provides@) =~= seq![]);
        }
        r
    }

    /// Applies the field `key: value`.
    fn apply(&mut self, key: &str, value: &[char])
        requires
            is_depends_key(key@) ==> depends_ok(trim(value@)),
        ensures
            final(self)@ == apply_field(old(self)@, FieldView { key: key@, value: value@ }),
    {
        let (a, b) = trim_bounds(value, 0, value.len());
        proof {
            assert(trim(value@) == value@.subrange(a as int, b as int));
        }
        if same_text(key, "Package") {
            self.package = Some(string_of(value, a, b));
        } else if same_text(key, "Version") {
            self.version = Some(string_of(value, a, b));
        } else if same_text(key, "Architecture") {
            self.architecture = Some(string_of(value, a, b));
        } else if same_text(key, "Depends") {
            let t = string_of(value, a, b);
            self.depends = parse_depends_field(t.as_str());
        } else if same_text(key, "Pre-Depends") {
            let t = string_of(value, a, b);
            self.pre_depends = parse_depends_field(t.as_str());
        } else if same_text(key, "Provides") {
            let t = string_of(value, a, b);
            let es = parse_depends_field(t.as_str());
            self.provides = provided_refs(&es);
        } else if same_text(key, "Description") {
            proof {
                lemma_find_char(value@, '\n', a as int, b as int);
            }
            let e = match find_in(value, '\n', a, b) {
                Some(i) => i,
                None => b,
            };
            let (da, db) = trim_bounds(value, a, e);
            if da != db {
                self.description = Some(string_of(value, da, db));
            }
        }
    }
}

proof fn lemma_scan_done_grows(s: Seq<char>, ls: Seq<(int, int)>, j: int)
    requires
        0 <= j <= ls.len(),
    ensures
        scan(s, ls.take(j)).done.len() <= close(scan(s, ls)).len(),
        forall|i: int|
            0 <= i < scan(s, ls.take(j)).done.len() ==> #[trigger] scan(s, ls.take(j)).done[i]
                == close(scan(s, ls))[i],
    decreases ls.len() - j,
{
    if j == ls.len() {
        assert(ls.take(j) =~= ls);
    } else {
        lemma_scan_done_grows(s, ls, j + 1);
        assert(ls.take(j + 1).drop_last() =~= ls.take(j));
        let a = scan(s, ls.take(j));
        let b = scan(s, ls.take(j + 1));
        assert(b == scan_step(s, a, ls.take(j + 1).last()));
        assert forall|i: int| 0 <= i < a.done.len() implies #[trigger] a.done[i] == b.done[i] by {}
    }
}

/// Every dependency-style field among `fs` can be parsed.
pub open spec fn fields_ok(fs: Seq<FieldView>) -> bool {
    forall|i: int|
        0 <= i < fs.len() && is_depends_key(#[trigger] fs[i].key) ==> depends_ok(trim(fs[i].value))
}

/// Whether the field `key: value` can be applied.
fn field_parses(key: &str, value: &[char]) -> (r: bool)
    ensures
        r == (is_depends_key(key@) ==> depends_ok(trim(value@))),
{
    if same_text(key, "Depends") || same_text(key, "Pre-Depends") || same_text(key, "Provides") {
        let (a, b) = trim_bounds(value, 0, value.len());
        proof {
            assert(trim(value@) == value@.subrange(a as int, b as int));
        }
        let t = string_of(value, a, b);
        depends_field_ok(t.as_str())
    } else {
        true
    }
}

impl DebControl {
    /// Parse a Debian control file body (the `control` member inside
    /// control.tar).
    pub fn parse(control_text: &str) -> (r: Result<Self, String>)
        requires
            control_ok(control_text@),
        ensures
            match r {
                Ok(c) => control_spec(control_text@) == Ok::<ControlView, Seq<char>>(c@),
                Err(e) => control_spec(control_text@) == Err::<ControlView, Seq<char>>(e@),
            },
    {
        match Self::parse_checked(control_text) {
            Some(r) => r,
            // Unreachable: `control_ok` holds.
            None => Err(String::new()),
        }
    }

    /// [`DebControl::parse`] for any text: `None` exactly when some
    /// `Depends`, `Pre-Depends` or `Provides` alternative has its last `)`
    /// before its first `(`, a text `parse` does not take.
    pub fn parse_checked(control_text: &str) -> (r: Option<Result<Self, String>>)
        ensures
            r is None <==> !control_ok(control_text@),
            match r {
                Some(Ok(c)) => control_spec(control_text@) == Ok::<ControlView, Seq<char>>(c@),
                Some(Err(e)) => control_spec(control_text@) == Err::<ControlView, Seq<char>>(e@),
                None => true,
            },
    {
        let chars = chars_of(control_text);
        let s = chars.as_slice();
        let lines = line_bounds(s);
        let ghost ls = line_ranges(s@, 0);
        let mut slots = ControlSlots::new();
        let mut current_key: Option<String> = None;
        let mut current_value: Vec<char> = Vec::new();
        let mut k: usize = 0;
        while k < lines.len()
            invariant
                s@ == control_text@,
                ls == ranges_view(lines@),
                ls == line_ranges(s@, 0),
                forall|m: int| 0 <= m < lines@.len() ==> #[trigger] lines@[m].0 <= lines@[m].1 <= s@.len(),
                fields_ok(scan(s@, ls.take(k as int)).done),
                k <= lines@.len(),
                slots@ == apply_fields(scan(s@, ls.take(k as int)).done),
                match scan(s@, ls.take(k as int)).open {
                    Some(f) => current_key matches Some(key) && key@ == f.key && current_value@
                        == f.value,
                    None => current_key is None,
                },
            decreases lines@.len() - k,
        {
            let (a, b) = lines[k];
            let ghost st = scan(s@, ls.take(k as int));
            proof {
                assert(ls[k as int] == (a as int, b as int));
                assert(ls.take(k + 1).drop_last() =~= ls.take(k as int));
                assert(ls.take(k + 1).last() == ls[k as int]);
            }
            if a < b && s[a] == ' ' {
                if current_value.len() > 0 {
                    current_value.push('\n');
                }
                let ghost before = current_value@;
                let mut m = a + 1;
                while m < b
                    invariant
                        a < b <= s@.len(),
                        a + 1 <= m <= b,
                        current_value@ == before + s@.subrange(a + 1, m as int),
                    decreases b - m,
                {
                    current_value.push(s[m]);
                    proof {
                        assert(s@.subrange(a + 1, m + 1) =~= s@.subrange(a + 1, m as int).push(
                            s@[m as int],
                        ));
                    }
                    m = m + 1;
                }
                proof {
                    match st.open {
                        Some(f) => {
                            assert(current_value@ =~= append_continuation(
                                f.value,
                                s@.subrange(a + 1, b as int),
                            ));
                        },
                        None => {},
                    }
                }
            } else {
                let taken = current_key.take();
                match taken {
                    Some(key) => {
                        proof {
                            lemma_scan_done_grows(s@, ls, k + 1);
                            let f = st.open.unwrap();
                            let d = scan(s@, ls.take(k + 1)).done;
                            assert(d == st.done.push(f));
                            assert(d[d.len() - 1] == f);
                            assert(control_fields(s@)[d.len() - 1] == f);
                        }
                        if !field_parses(key.as_str(), current_value.as_slice()) {
                            proof {
                                let d = scan(s@, ls.take(k + 1)).done;
                                assert(control_fields(s@)[d.len() - 1].key == key@);
                            }
                            return None;
                        }
                        proof {
                            let f = st.open.unwrap();
                            assert forall|i: int|
                                0 <= i < st.done.push(f).len() && is_depends_key(
                                    #[trigger] st.done.push(f)[i].key,
                                ) implies depends_ok(trim(st.done.push(f)[i].value)) by {
                                if i < st.done.len() {
                                    assert(st.done.push(f)[i] == st.done[i]);
                                }
                            }
                        }
                        slots.apply(key.as_str(), current_value.as_slice());
                        current_value.clear();
                        proof {
                            let f = st.open.unwrap();
                            assert(st.done.push(f).drop_last() =~= st.done);
                        }
                    },
                    None => {},
                }
                let (ta, tb) = trim_bounds(s, a, b);
                proof {
                    lemma_find_char(s@, ':', a as int, b as int);
                }
                if ta != tb {
                    match find_in(s, ':', a, b) {
                        None => {},
                        Some(c) => {
                            let (ka, kb) = trim_bounds(s, a, c);
                            current_key = Some(string_of(s, ka, kb));
                            let (va, vb) = trim_bounds(s, c + 1, b);
                            let mut fresh: Vec<char> = Vec::new();
                            let mut m = va;
                            while m < b
                                invariant
                                    va <= m <= b <= s@.len(),
                                    fresh@ == s@.subrange(va as int, m as int),
                                decreases b - m,
                            {
                                fresh.push(s[m]);
                                proof {
                                    assert(s@.subrange(va as int, m + 1) =~= s@.subrange(
                                        va as int,
                                        m as int,
                                    ).push(s@[m as int]));
                                }
                                m = m + 1;
                            }
                            current_value = fresh;
                        },
                    }
                }
            }
            k = k + 1;
        }
        proof {
            assert(ls.take(lines@.len() as int) =~= ls);
        }
        let ghost st = scan(s@, ls);
        match current_key.take() {
            Some(key) => {
                proof {
                    let f = st.open.unwrap();
                    assert(control_fields(s@) == st.done.push(f));
                    assert(control_fields(s@)[st.done.len() as int] == f);
                    assert(control_fields(s@).drop_last() =~= st.done);
                }
                if !field_parses(key.as_str(), current_value.as_slice()) {
                    proof {
                        assert(control_fields(s@)[st.done.len() as int].key == key@);
                    }
                    return None;
                }
                proof {
                    let f = st.open.unwrap();
                    assert forall|i: int|
                        0 <= i < control_fields(s@).len() && is_depends_key(
                            #[trigger] control_fields(s@)[i].key,
                        ) implies depends_ok(trim(control_fields(s@)[i].value)) by {
                        if i < st.done.len() {
                            assert(control_fields(s@)[i] == st.done[i]);
                        }
                    }
                }
                slots.apply(key.as_str(), current_value.as_slice());
            },
            None => {
                proof {
                    assert(control_fields(s@) == st.done);
                }
            },
        }
        proof {
            assert(slots@ == apply_fields(control_fields(s@)));
        }
        let package = match slots.package {
            Some(p) => p,
            None => return Some(Err("missing Package field".to_string())),
        };
        let version = match slots.version {
            Some(v) => v,
            None => return Some(Err("missing Version field".to_string())),
        };
        let architecture = match slots.architecture {
            Some(a) => a,
            None => "all".to_string(),
        };
        Some(
            Ok(
                DebControl {
                    package,
                    version,
                    architecture,
                    depends: slots.depends,
                    pre_depends: slots.pre_depends,
                    provides: slots.provides,
                    description: slots.description,
                },
            ),
        )
    }

    /// Pre-install dependencies, then runtime dependencies.
    pub fn all_depends(&self) -> (r: Vec<DependencyExpr>)
        ensures
            exprs_view(r@) == exprs_view(self.pre_depends@) + exprs_view(self.depends@),
    {
        let mut out = duplicate_exprs(self.pre_depends.as_slice());
        let rest = duplicate_exprs(self.depends.as_slice());
        let ghost a = out@;
        let mut tail = rest;
        out.append(&mut tail);
        proof {
            assert(exprs_view(out@) =~= exprs_view(a) + exprs_view(rest@));
        }
        out
    }
}


// ---------------------------------------------------------------------------
// Published packages

/// Metadata for a `.deb` in the package feed, as served by the JSON API and
/// consumed by the client (from the archive's control file, or the filename
/// when the archive cannot be inspected).
#[derive(Debug, Clone)]
pub struct DebPackage {
    /// On-disk filename (`{name}_{version}_{arch}.deb`).
    pub filename: String,
    /// Package name.
    pub name: String,
    /// Package version.
    pub version: String,
    /// Target architecture.
    pub architecture: String,
    /// File size in bytes.
    pub size_bytes: u64,
    /// Service-relative download URL.
    pub download_path: String,
    /// Runtime dependencies.
    pub depends: Vec<DependencyExpr>,
    /// Pre-install dependencies.
    pub pre_depends: Vec<DependencyExpr>,
    /// Virtual packages provided.
    pub provides: Vec<PackageRef>,
    /// Short description.
    pub description: Option<String>,
}

/// Abstract published package.
pub struct PackageView {
    pub filename: Seq<char>,
    pub name: Seq<char>,
    pub version: Seq<char>,
    pub architecture: Seq<char>,
    pub size_bytes: u64,
    pub download_path: Seq<char>,
    pub depends: Seq<Seq<ClauseView>>,
    pub pre_depends: Seq<Seq<ClauseView>>,
    pub provides: Seq<Seq<char>>,
    pub description: Option<Seq<char>>,
}

impl View for DebPackage {
    type V = PackageView;

    open spec fn view(&self) -> PackageView {
        PackageView {
            filename: self.filename@,
            name: self.name@,
            version: self.version@,
            architecture: self.architecture@,
            size_bytes: self.size_bytes,
            download_path: self.download_path@,
            depends: exprs_view(self.depends@),
            pre_depends: exprs_view(self.pre_depends@),
            provides: refs_view(self.provides@),
            description: opt_view(self.description),
        }
    }
}

/// Copies of package references.
pub fn duplicate_refs(v: &Vec<PackageRef>) -> (r: Vec<PackageRef>)
    ensures
        refs_view(r@) == refs_view(v@),
{
    let mut out: Vec<PackageRef> = Vec::new();
    let mut k: usize = 0;
    while k < v.len()
        invariant
            k <= v@.len(),
            refs_view(out@) == refs_view(v@.take(k as int)),
        decreases v@.len() - k,
    {
        let ghost prev = out@;
        let p = v[k].duplicate();
        out.push(p);
        proof {
            assert(refs_view(out@) =~= refs_view(prev).push(p@));
            assert(refs_view(v@.take(k + 1)) =~= refs_view(v@.take(k as int)).push(v@[k as int]@));
        }
        k = k + 1;
    }
    proof {
        assert(v@.take(v@.len() as int) =~= v@);
    }
    out
}

fn duplicate_opt(o: &Option<String>) -> (r: Option<String>)
    ensures
        opt_view(r) == opt_view(*o),
{
    match o {
        Some(s) => Some(s.clone()),
        None => None,
    }
}

impl DebControl {
    /// A copy with the same fields.
    pub fn duplicate(&self) -> (r: Self)
        ensures
            r@ == self@,
    {
        DebControl {
            package: self.package.clone(),
            version: self.version.clone(),
            architecture: self.architecture.clone(),
            depends: duplicate_exprs(self.depends.as_slice()),
            pre_depends: duplicate_exprs(self.pre_depends.as_slice()),
            provides: duplicate_refs(&self.provides),
            description: duplicate_opt(&self.description),
        }
    }
}

impl DebPackage {
    /// Build an entry from a parsed control file.
    pub fn from_control(filename: &str, size_bytes: u64, download_path: String, control: &DebControl) -> (r:
        Self)
        ensures
            r@ == (PackageView {
                filename: filename@,
                name: control@.package,
                version: control@.version,
                architecture: control@.architecture,
                size_bytes,
                download_path: download_path@,
                depends: control@.depends,
                pre_depends: control@.pre_depends,
                provides: control@.provides,
                description: control@.description,
            }),
    {
        DebPackage {
            filename: filename.to_owned(),
            name: control.package.clone(),
            version: control.version.clone(),
            architecture: control.architecture.clone(),
            size_bytes,
            download_path,
            depends: duplicate_exprs(control.depends.as_slice()),
            pre_depends: duplicate_exprs(control.pre_depends.as_slice()),
            provides: duplicate_refs(&control.provides),
            description: duplicate_opt(&control.description),
        }
    }

    /// A copy with the same fields.
    pub fn duplicate(&self) -> (r: Self)
        ensures
            r@ == self@,
    {
        DebPackage {
            filename: self.filename.clone(),
            name: self.name.clone(),
            version: self.version.clone(),
            architecture: self.architecture.clone(),
            size_bytes: self.size_bytes,
            download_path: self.download_path.clone(),
            depends: duplicate_exprs(self.depends.as_slice()),
            pre_depends: duplicate_exprs(self.pre_depends.as_slice()),
            provides: duplicate_refs(&self.provides),
            description: duplicate_opt(&self.description),
        }
    }
}

/// The names of each group's alternatives.
pub open spec fn group_names(es: Seq<Seq<ClauseView>>) -> Seq<Seq<Seq<char>>> {
    es.map_values(|g: Seq<ClauseView>| g.map_values(|c: ClauseView| c.name))
}

/// A `Provides` field gives the name of every alternative of every comma
/// group, group after group: the groups' name lists, concatenated. So it
/// holds as many names as all groups together, each group's in order.
pub proof fn lemma_provides_lists_every_group(es: Seq<Seq<ClauseView>>)
    ensures
        provided_names(es) == group_names(es).flatten(),
        forall|i: int, j: int|
            0 <= i < es.len() && 0 <= j < es[i].len() ==> provided_names(es).contains(
                #[trigger] es[i][j].name,
            ),
    decreases es.len(),
{
    if es.len() > 0 {
        let d = es.drop_last();
        lemma_provides_lists_every_group(d);
        assert(group_names(es) =~= group_names(d).push(es.last().map_values(|c: ClauseView| c.name)));
        group_names(d).lemma_flatten_push(es.last().map_values(|c: ClauseView| c.name));
        assert forall|i: int, j: int|
            0 <= i < es.len() && 0 <= j < es[i].len() implies provided_names(es).contains(
                #[trigger] es[i][j].name,
            ) by {
            let p = provided_names(d);
            let q = es.last().map_values(|c: ClauseView| c.name);
            assert(provided_names(es) == p + q);
            if i < es.len() - 1 {
                assert(d[i] == es[i]);
                assert(p.contains(es[i][j].name));
                let x = choose|x: int| 0 <= x < p.len() && p[x] == es[i][j].name;
                assert((p + q)[x] == p[x]);
            } else {
                assert(q[j] == es[i][j].name);
                assert((p + q)[p.len() + j] == q[j]);
            }
        }
    } else {
        assert(group_names(es) =~= Seq::<Seq<Seq<char>>>::empty());
    }
}

} // verus!
