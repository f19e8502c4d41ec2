//! Planning a push of local `.deb` packages: dependency order within the
//! batch, and which dependencies neither the remote index nor earlier
//! packages of the batch satisfy.

use vstd::prelude::*;

use crate::client::ClientError;
use crate::control::{refs_view, ControlView, DebControl, DebPackage, PackageView};
use crate::depends::{
    avail_view, clause_satisfied, constraint_matches, expr_satisfied, exprs_view, satisfies,
    unsatisfied, ClauseView, DependencyExpr, PackageRef,
};
use crate::graph::{
    breadth_first, distinct_nodes, has_topological_order, is_topological, kahn_order, last_pos,
    lemma_distinct_len, lemma_pos_in, nodes_view, pos_in, preds_view, queue_before,
};
use crate::text::{
    chars_of, lemma_text_lt_asymmetric, lemma_text_lt_irreflexive, lemma_text_lt_total,
    lemma_text_lt_transitive, push_str, same_chars, text_less, text_lt,
};
use crate::depends::expr_text;

verus! {

/// A `.deb` on the local filesystem, with its parsed control metadata.
#[derive(Debug, Clone)]
pub struct LocalPackage {
    pub path: String,
    pub filename: String,
    pub control: DebControl,
}

/// Package names of the batch.
pub open spec fn local_names(locals: Seq<LocalPackage>) -> Seq<Seq<char>> {
    locals.map_values(|l: LocalPackage| l.control.package@)
}

/// Pre-install then runtime dependencies of a package.
pub open spec fn local_deps(l: LocalPackage) -> Seq<Seq<ClauseView>> {
    l.control@.pre_depends + l.control@.depends
}

/// The last package of the batch with this name.
pub open spec fn last_index_of(names: Seq<Seq<char>>, n: Seq<char>) -> Option<int>
    decreases names.len(),
{
    if names.len() == 0 {
        None
    } else if names.last() == n {
        Some(names.len() - 1)
    } else {
        last_index_of(names.drop_last(), n)
    }
}

/// The batch package that one dependency expression of package `i` points
/// at: the first alternative, from index `k` on, naming another batch
/// package.
pub open spec fn expr_dependency(names: Seq<Seq<char>>, i: int, e: Seq<ClauseView>, k: int) -> Option<
    int,
>
    decreases e.len() - k,
{
    if k < 0 || k >= e.len() {
        None
    } else {
        match last_index_of(names, e[k].name) {
            Some(d) => if d != i {
                Some(d)
            } else {
                expr_dependency(names, i, e, k + 1)
            },
            None => expr_dependency(names, i, e, k + 1),
        }
    }
}

/// The batch packages package `i` must follow, one per dependency
/// expression that names one.
pub open spec fn dependency_edges(locals: Seq<LocalPackage>, i: int) -> Seq<int> {
    local_deps(locals[i]).filter_map(
        |e: Seq<ClauseView>| expr_dependency(local_names(locals), i, e, 0),
    )
}

/// The dependency graph of the batch, as predecessor lists.
pub open spec fn local_graph(locals: Seq<LocalPackage>) -> Seq<Seq<int>> {
    Seq::new(locals.len(), |i: int| dependency_edges(locals, i))
}

/// Packages ordered by name, then by position in the batch.
pub open spec fn name_key_lt(names: Seq<Seq<char>>, a: int, b: int) -> bool {
    text_lt(names[a], names[b]) || (names[a] == names[b] && a < b)
}

/// The first `k` entries of the order are the packages that depend on no
/// other batch package, sorted by name (then by position).
pub open spec fn roots_prefix(order: Seq<int>, g: Seq<Seq<int>>, names: Seq<Seq<char>>, k: int) -> bool {
    &&& 0 <= k <= order.len()
    &&& forall|p: int| 0 <= p < k ==> #[trigger] g[order[p]].len() == 0
    &&& forall|p: int| k <= p < order.len() ==> #[trigger] g[order[p]].len() > 0
    &&& forall|p: int, p2: int|
        0 <= p < p2 < k ==> name_key_lt(names, #[trigger] order[p], #[trigger] order[p2])
}

/// The order starts with every package that depends on no other batch
/// package, sorted by name (then by position).
pub open spec fn roots_first(order: Seq<int>, g: Seq<Seq<int>>, names: Seq<Seq<char>>) -> bool {
    exists|k: int| #[trigger] roots_prefix(order, g, names, k)
}

proof fn lemma_last_index_of(names: Seq<Seq<char>>, n: Seq<char>)
    ensures
        last_index_of(names, n) matches Some(d) ==> 0 <= d < names.len() && names[d] == n,
    decreases names.len(),
{
    if names.len() > 0 && names.last() != n {
        lemma_last_index_of(names.drop_last(), n);
    }
}

proof fn lemma_expr_dependency(names: Seq<Seq<char>>, i: int, e: Seq<ClauseView>, k: int)
    ensures
        expr_dependency(names, i, e, k) matches Some(d) ==> 0 <= d < names.len() && d != i,
    decreases e.len() - k,
{
    if 0 <= k < e.len() {
        lemma_last_index_of(names, e[k].name);
        lemma_expr_dependency(names, i, e, k + 1);
    }
}

/// Position of the last package named `name[..]`.
fn last_index(names: &Vec<Vec<char>>, name: &[char]) -> (r: Option<usize>)
    ensures
        match r {
            Some(d) => last_index_of(names@.map_values(|v: Vec<char>| v@), name@) == Some(d as int),
            None => last_index_of(names@.map_values(|v: Vec<char>| v@), name@) is None,
        },
{
    let ghost nv = names@.map_values(|v: Vec<char>| v@);
    let mut k = names.len();
    proof {
        assert(nv.take(k as int) =~= nv);
    }
    while k > 0
        invariant
            k <= names@.len(),
            nv == names@.map_values(|v: Vec<char>| v@),
            last_index_of(nv.take(k as int), name@) == last_index_of(nv, name@),
        decreases k,
    {
        proof {
            assert(nv.take(k as int).drop_last() =~= nv.take(k - 1));
            assert(nv.take(k as int).last() == names@[k - 1]@);
        }
        let cand = &names[k - 1];
        let same = same_chars(cand.as_slice(), 0, cand.len(), name, 0, name.len());
        proof {
            assert(cand@.subrange(0, cand@.len() as int) =~= cand@);
            assert(name@.subrange(0, name@.len() as int) =~= name@);
        }
        if same {
            return Some(k - 1);
        }
        k = k - 1;
    }
    proof {
        assert(nv.take(0) =~= Seq::<Seq<char>>::empty());
    }
    None
}

/// The batch package the expression `e` of package `i` points at.
fn expr_edge(names: &Vec<Vec<char>>, i: usize, e: &DependencyExpr) -> (r: Option<usize>)
    ensures
        match r {
            Some(d) => expr_dependency(names@.map_values(|v: Vec<char>| v@), i as int, e@, 0)
                == Some(d as int),
            None => expr_dependency(names@.map_values(|v: Vec<char>| v@), i as int, e@, 0) is None,
        },
{
    let ghost nv = names@.map_values(|v: Vec<char>| v@);
    let mut k: usize = 0;
    while k < e.alternatives.len()
        invariant
            k <= e.alternatives@.len(),
            nv == names@.map_values(|v: Vec<char>| v@),
            expr_dependency(nv, i as int, e@, k as int) == expr_dependency(nv, i as int, e@, 0),
        decreases e.alternatives@.len() - k,
    {
        let name = chars_of(e.alternatives[k].package.name.as_str());
        proof {
            assert(e@[k as int].name == name@);
        }
        match last_index(names, name.as_slice()) {
            Some(d) => {
                if d != i {
                    return Some(d);
                }
            },
            None => {},
        }
        k = k + 1;
    }
    None
}

/// The predecessor list of package `i`.
fn package_edges(locals: &[LocalPackage], names: &Vec<Vec<char>>, i: usize) -> (r: Vec<usize>)
    requires
        i < locals@.len(),
        names@.map_values(|v: Vec<char>| v@) == local_names(locals@),
    ensures
        nodes_view(r@) == dependency_edges(locals@, i as int),
{
    let deps = locals[i].control.all_depends();
    let ghost dv = exprs_view(deps@);
    let ghost f = |e: Seq<ClauseView>| expr_dependency(local_names(locals@), i as int, e, 0);
    proof {
        assert(dv == local_deps(locals@[i as int]));
    }
    let mut out: Vec<usize> = Vec::new();
    let mut k: usize = 0;
    while k < deps.len()
        invariant
            k <= deps@.len(),
            dv == exprs_view(deps@),
            names@.map_values(|v: Vec<char>| v@) == local_names(locals@),
            f == (|e: Seq<ClauseView>| expr_dependency(local_names(locals@), i as int, e, 0)),
            nodes_view(out@) == dv.take(k as int).filter_map(f),
        decreases deps@.len() - k,
    {
        proof {
            assert(dv.take(k + 1).drop_last() =~= dv.take(k as int));
            assert(dv.take(k + 1).last() == deps@[k as int]@);
        }
        match expr_edge(names, i, &deps[k]) {
            Some(d) => {
                let ghost prev = out@;
                out.push(d);
                proof {
                    assert(nodes_view(out@) =~= nodes_view(prev).push(d as int));
                }
            },
            None => {},
        }
        k = k + 1;
    }
    proof {
        assert(dv.take(deps@.len() as int) =~= dv);
    }
    out
}

/// Order `locals` so every package follows the batch-local packages it
/// depends on: returns indices into `locals`. Packages that depend on no
/// other batch package come first, by name. `Err` exactly when the batch
/// dependencies form a cycle.
pub fn topo_sort(locals: &[LocalPackage]) -> (r: Result<Vec<usize>, ClientError>)
    ensures
        r is Ok <==> has_topological_order(local_graph(locals@), locals@.len() as int),
        r matches Ok(o) ==> is_topological(
            nodes_view(o@),
            local_graph(locals@),
            locals@.len() as int,
        ) && roots_first(nodes_view(o@), local_graph(locals@), local_names(locals@))
            && breadth_first(nodes_view(o@), local_graph(locals@)),
        r matches Err(e) ==> e matches ClientError::Message(m) && m@
            == "dependency cycle detected among local packages"@,
{
    let n = locals.len();
    let ghost g = local_graph(locals@);
    let ghost ln = local_names(locals@);
    let mut names: Vec<Vec<char>> = Vec::new();
    let mut i: usize = 0;
    while i < n
        invariant
            n == locals@.len(),
            i <= n,
            names@.map_values(|v: Vec<char>| v@) == ln.take(i as int),
            ln == local_names(locals@),
        decreases n - i,
    {
        let ghost prev = names@;
        let c = chars_of(locals[i].control.package.as_str());
        names.push(c);
        proof {
            assert(names@.map_values(|v: Vec<char>| v@) =~= prev.map_values(|v: Vec<char>| v@).push(
                c@,
            ));
            assert(ln.take(i + 1) =~= ln.take(i as int).push(ln[i as int]));
        }
        i = i + 1;
    }
    proof {
        assert(ln.take(n as int) =~= ln);
    }
    let mut preds: Vec<Vec<usize>> = Vec::new();
    let mut roots: Vec<usize> = Vec::new();
    let mut i: usize = 0;
    while i < n
        invariant
            n == locals@.len(),
            i <= n,
            names@.map_values(|v: Vec<char>| v@) == ln,
            ln == local_names(locals@),
            g == local_graph(locals@),
            preds@.len() == i,
            forall|v: int| 0 <= v < i ==> #[trigger] preds_view(preds@)[v] == g[v],
            distinct_nodes(nodes_view(roots@), i as int),
            forall|q: int| 0 <= q < roots@.len() ==> #[trigger] roots@[q] < i,
            forall|v: int| 0 <= v < i ==> (nodes_view(roots@).contains(v) <==> g[v].len() == 0),
            forall|p: int, p2: int|
                0 <= p < p2 < roots@.len() ==> name_key_lt(
                    ln,
                    #[trigger] roots@[p] as int,
                    #[trigger] roots@[p2] as int,
                ),
        decreases n - i,
    {
        let edges = package_edges(locals, &names, i);
        let no_edges = edges.len() == 0;
        let ghost prev_preds = preds@;
        preds.push(edges);
        proof {
            assert forall|v: int| 0 <= v < i + 1 implies #[trigger] preds_view(preds@)[v] == g[v] by {
                if v < i {
                    assert(preds@[v] == prev_preds[v]);
                    assert(preds_view(prev_preds)[v] == g[v]);
                }
            }
        }
        if no_edges {
            let ghost before = roots@;
            let mut p: usize = 0;
            while p < roots.len() && !text_less(names[i].as_slice(), names[roots[p]].as_slice())
                invariant
                    p <= roots@.len(),
                    names@.map_values(|v: Vec<char>| v@) == ln,
                    i < n,
                    n == ln.len(),
                    distinct_nodes(nodes_view(roots@), i as int),
                    forall|q: int| 0 <= q < roots@.len() ==> #[trigger] roots@[q] < i,
                    forall|q: int| 0 <= q < p ==> name_key_lt(ln, #[trigger] roots@[q] as int, i as int),
                decreases roots@.len() - p,
            {
                proof {
                    let a = ln[i as int];
                    let b = ln[roots@[p as int] as int];
                    assert(names@[i as int]@ == a);
                    assert(names@[roots@[p as int] as int]@ == b);
                    lemma_text_lt_total(a, b);
                }
                p = p + 1;
            }
            proof {
                if p < roots@.len() {
                    assert(names@[i as int]@ == ln[i as int]);
                    assert(names@[roots@[p as int] as int]@ == ln[roots@[p as int] as int]);
                }
            }
            roots.insert(p, i);
            proof {
                let rv = roots@;
                assert(rv == before.insert(p as int, i));
                assert forall|a: int, b: int| 0 <= a < b < rv.len() implies name_key_lt(
                    ln,
                    #[trigger] rv[a] as int,
                    #[trigger] rv[b] as int,
                ) by {
                    lemma_key_order(ln, before, p as int, i, a, b);
                }
                assert(distinct_nodes(nodes_view(rv), i + 1)) by {
                    assert forall|a: int, b: int|
                        0 <= a < nodes_view(rv).len() && 0 <= b < nodes_view(rv).len() && a != b
                        implies nodes_view(rv)[a] != nodes_view(rv)[b] by {
                        if a < b {
                            assert(name_key_lt(ln, rv[a] as int, rv[b] as int));
                            lemma_text_lt_irreflexive(ln[rv[a] as int]);
                        } else {
                            assert(name_key_lt(ln, rv[b] as int, rv[a] as int));
                            lemma_text_lt_irreflexive(ln[rv[a] as int]);
                        }
                    }
                }
                assert forall|v: int| 0 <= v < i + 1 implies (nodes_view(rv).contains(v) <==> g[v].len()
                    == 0) by {
                    assert(g[i as int] == preds_view(preds@)[i as int]);
                    assert(g[i as int].len() == 0);
                    if nodes_view(rv).contains(v) {
                        let k = choose|k: int| 0 <= k < nodes_view(rv).len() && nodes_view(rv)[k] == v;
                        if v != i {
                            if k < p {
                                assert(nodes_view(before)[k] == v);
                            } else {
                                assert(nodes_view(before)[k - 1] == v);
                            }
                            assert(nodes_view(before).contains(v));
                        }
                    }
                    if g[v].len() == 0 {
                        if v == i {
                            assert(nodes_view(rv)[p as int] == v);
                        } else {
                            assert(nodes_view(before).contains(v));
                            let k = choose|k: int| 0 <= k < nodes_view(before).len() && nodes_view(before)[k] == v;
                            if k < p {
                                assert(nodes_view(rv)[k] == v);
                            } else {
                                assert(nodes_view(rv)[k + 1] == v);
                            }
                        }
                    }
                }
            }
        } else {
            proof {
                assert forall|v: int| 0 <= v < i + 1 implies (nodes_view(roots@).contains(v)
                    <==> g[v].len() == 0) by {
                    if v == i {
                        assert(nodes_view(preds@[v]@).len() == preds@[v]@.len());
                    }
                }
            }
        }
        i = i + 1;
    }
    proof {
        assert(preds_view(preds@) =~= g);
        assert forall|v: int, t: int| 0 <= v < n && 0 <= t < g[v].len() implies 0 <= #[trigger] g[v][t]
            < n && g[v][t] != v by {
            let dv = local_deps(locals@[v]);
            let f = |e: Seq<ClauseView>| expr_dependency(ln, v, e, 0);
            assert forall|e: Seq<ClauseView>| (#[trigger] f(e) matches Some(d) ==> 0 <= d < n && d != v) by {
                lemma_expr_dependency(ln, v, e, 0);
            }
            assert(g[v] == dv.filter_map(f));
            lemma_filter_map_in(dv, f, t, n as int, v);
        }
        assert forall|v: int| 0 <= v < n implies (nodes_view(roots@).contains(v) <==> preds@[v]@.len()
            == 0) by {
            assert(preds_view(preds@)[v].len() == preds@[v]@.len());
        }
    }
    match kahn_order(&preds, roots) {
        Some(o) => {
            proof {
                let ov = nodes_view(o@);
                let k = roots@.len() as int;
                assert(roots_prefix(ov, g, ln, k)) by {
                    assert forall|p: int| 0 <= p < k implies #[trigger] g[ov[p]].len() == 0 by {
                        assert(ov.take(k)[p] == ov[p]);
                        assert(nodes_view(roots@)[p] == ov[p]);
                        assert(nodes_view(roots@).contains(ov[p]));
                    }
                    assert forall|p: int| k <= p < ov.len() implies #[trigger] g[ov[p]].len() > 0 by {
                        if g[ov[p]].len() == 0 {
                            let x = ov[p];
                            assert(nodes_view(roots@).contains(x));
                            let j = choose|j: int| 0 <= j < k && nodes_view(roots@)[j] == x;
                            assert(ov.take(k)[j] == ov[j]);
                            assert(ov[j] == ov[p]);
                        }
                    }
                    assert forall|p: int, p2: int| 0 <= p < p2 < k implies name_key_lt(
                        ln,
                        #[trigger] ov[p],
                        #[trigger] ov[p2],
                    ) by {
                        assert(ov.take(k)[p] == ov[p]);
                        assert(ov.take(k)[p2] == ov[p2]);
                        assert(ov[p] == roots@[p] as int);
                        assert(ov[p2] == roots@[p2] as int);
                    }
                }
                assert(roots_first(ov, g, ln));
            }
            Ok(o)
        },
        None => Err(ClientError::Message("dependency cycle detected among local packages".to_string())),
    }
}

proof fn lemma_filter_map_in(
    dv: Seq<Seq<ClauseView>>,
    f: spec_fn(Seq<ClauseView>) -> Option<int>,
    t: int,
    n: int,
    v: int,
)
    requires
        forall|e: Seq<ClauseView>| #[trigger] f(e) matches Some(d) ==> 0 <= d < n && d != v,
        0 <= t < dv.filter_map(f).len(),
    ensures
        0 <= dv.filter_map(f)[t] < n && dv.filter_map(f)[t] != v,
    decreases dv.len(),
{
    if dv.len() > 0 {
        let rest = dv.drop_last().filter_map(f);
        if t < rest.len() {
            lemma_filter_map_in(dv.drop_last(), f, t, n, v);
            match f(dv.last()) {
                Some(s) => {
                    assert(dv.filter_map(f) == rest + seq![s]);
                    assert(dv.filter_map(f)[t] == rest[t]);
                },
                None => {},
            }
        } else {
            match f(dv.last()) {
                Some(s) => {
                    assert(dv.filter_map(f) == rest + seq![s]);
                    assert(dv.filter_map(f)[t] == s);
                },
                None => {},
            }
        }
    }
}

proof fn lemma_name_key_transitive(ln: Seq<Seq<char>>, x: int, y: int, z: int)
    requires
        name_key_lt(ln, x, y),
        name_key_lt(ln, y, z),
    ensures
        name_key_lt(ln, x, z),
{
    if text_lt(ln[x], ln[y]) && text_lt(ln[y], ln[z]) {
        lemma_text_lt_transitive(ln[x], ln[y], ln[z]);
    }
}

proof fn lemma_key_order(ln: Seq<Seq<char>>, before: Seq<usize>, p: int, iu: usize, a: int, b: int)
    requires
        0 <= p <= before.len(),
        forall|x: int, y: int|
            0 <= x < y < before.len() ==> name_key_lt(ln, #[trigger] before[x] as int, #[trigger] before[y] as int),
        forall|q: int| 0 <= q < p ==> name_key_lt(ln, #[trigger] before[q] as int, iu as int),
        p < before.len() ==> text_lt(ln[iu as int], ln[before[p] as int]),
        0 <= a < b < before.len() + 1,
        iu < ln.len(),
        forall|q: int| 0 <= q < before.len() ==> 0 <= #[trigger] before[q] < ln.len(),
    ensures
        name_key_lt(ln, before.insert(p, iu)[a] as int, before.insert(p, iu)[b] as int),
{
    let i = iu as int;
    let ins = before.insert(p, iu);
    assert(ins.len() == before.len() + 1);
    if b < p {
        assert(ins[a] == before[a] && ins[b] == before[b]);
        assert(name_key_lt(ln, before[a] as int, before[b] as int));
    } else if b == p {
        assert(ins[a] == before[a] && ins[b] == iu);
        assert(name_key_lt(ln, before[a] as int, i));
    } else if a < p {
        assert(ins[a] == before[a] && ins[b] == before[b - 1]);
        assert(name_key_lt(ln, before[a] as int, before[b - 1] as int));
    } else if a == p {
        assert(ins[a] == iu && ins[b] == before[b - 1]);
        assert(name_key_lt(ln, i, before[p] as int));
        if b - 1 > p {
            assert(name_key_lt(ln, before[p] as int, before[b - 1] as int));
            lemma_name_key_transitive(ln, i, before[p] as int, before[b - 1] as int);
        }
    } else {
        assert(ins[a] == before[a - 1] && ins[b] == before[b - 1]);
        assert(name_key_lt(ln, before[a - 1] as int, before[b - 1] as int));
    }
}


// ---------------------------------------------------------------------------
// Push plans

/// Abstract local package.
pub struct LocalView {
    pub path: Seq<char>,
    pub filename: Seq<char>,
    pub control: ControlView,
}

impl View for LocalPackage {
    type V = LocalView;

    open spec fn view(&self) -> LocalView {
        LocalView { path: self.path@, filename: self.filename@, control: self.control@ }
    }
}

pub open spec fn locals_view(v: Seq<LocalPackage>) -> Seq<LocalView> {
    v.map_values(|l: LocalPackage| l@)
}

impl LocalPackage {
    /// A copy with the same fields.
    pub fn duplicate(&self) -> (r: Self)
        ensures
            r@ == self@,
    {
        LocalPackage {
            path: self.path.clone(),
            filename: self.filename.clone(),
            control: self.control.duplicate(),
        }
    }
}

/// Dependencies of one package that nothing available satisfies.
#[derive(Debug, Clone)]
pub struct MissingDependency {
    pub package: String,
    pub missing: Vec<DependencyExpr>,
}

pub struct MissingView {
    pub package: Seq<char>,
    pub missing: Seq<Seq<ClauseView>>,
}

impl View for MissingDependency {
    type V = MissingView;

    open spec fn view(&self) -> MissingView {
        MissingView { package: self.package@, missing: exprs_view(self.missing@) }
    }
}

pub open spec fn missing_view(v: Seq<MissingDependency>) -> Seq<MissingView> {
    v.map_values(|m: MissingDependency| m@)
}

/// What a push would do: publish order plus unsatisfied dependencies.
#[derive(Debug, Clone)]
pub struct PushPlan {
    /// Packages to publish, dependencies first.
    pub order: Vec<LocalPackage>,
    pub missing: Vec<MissingDependency>,
}

/// Outcome of a completed push.
#[derive(Debug, Clone)]
pub struct PushReport {
    pub published: Vec<DebPackage>,
}

/// Each provided name maps to `version` unless something already claims it.
pub open spec fn offer_provides(m: Map<Seq<char>, Seq<char>>, ps: Seq<Seq<char>>, version: Seq<char>) -> Map<
    Seq<char>,
    Seq<char>,
>
    decreases ps.len(),
{
    if ps.len() == 0 {
        m
    } else {
        let m2 = offer_provides(m, ps.drop_last(), version);
        if m2.contains_key(ps.last()) {
            m2
        } else {
            m2.insert(ps.last(), version)
        }
    }
}

/// A package makes its own name available at its version (replacing any
/// earlier entry), then its provided names where still free.
pub open spec fn offer(
    m: Map<Seq<char>, Seq<char>>,
    name: Seq<char>,
    version: Seq<char>,
    ps: Seq<Seq<char>>,
) -> Map<Seq<char>, Seq<char>> {
    offer_provides(m.insert(name, version), ps, version)
}

/// What the remote index makes available, package by package.
pub open spec fn remote_available(remote: Seq<PackageView>) -> Map<Seq<char>, Seq<char>>
    decreases remote.len(),
{
    if remote.len() == 0 {
        Map::empty()
    } else {
        let p = remote.last();
        offer(remote_available(remote.drop_last()), p.name, p.version, p.provides)
    }
}

/// Available after `base` and the packages of `order`, in turn.
pub open spec fn available_after(base: Map<Seq<char>, Seq<char>>, order: Seq<LocalView>) -> Map<
    Seq<char>,
    Seq<char>,
>
    decreases order.len(),
{
    if order.len() == 0 {
        base
    } else {
        let l = order.last();
        offer(
            available_after(base, order.drop_last()),
            l.control.package,
            l.control.version,
            l.control.provides,
        )
    }
}

/// Some alternative names an available package whose version meets it.
pub open spec fn satisfied_in(e: Seq<ClauseView>, m: Map<Seq<char>, Seq<char>>) -> bool {
    exists|i: int|
        0 <= i < e.len() && m.contains_key(#[trigger] e[i].name) && constraint_matches(
            e[i].constraint,
            m[e[i].name],
        )
}

/// The expressions of `es` that `m` leaves unsatisfied, in order.
pub open spec fn unmet(es: Seq<Seq<ClauseView>>, m: Map<Seq<char>, Seq<char>>) -> Seq<Seq<ClauseView>>
    decreases es.len(),
{
    if es.len() == 0 {
        es
    } else {
        let rest = unmet(es.drop_last(), m);
        if satisfied_in(es.last(), m) {
            rest
        } else {
            rest.push(es.last())
        }
    }
}

/// For each package of `order`, in turn, what the remote index and the
/// packages before it leave unsatisfied.
pub open spec fn missing_for(base: Map<Seq<char>, Seq<char>>, order: Seq<LocalView>) -> Seq<MissingView>
    decreases order.len(),
{
    if order.len() == 0 {
        seq![]
    } else {
        let prev = missing_for(base, order.drop_last());
        let l = order.last();
        let unsat = unmet(
            l.control.pre_depends + l.control.depends,
            available_after(base, order.drop_last()),
        );
        if unsat.len() > 0 {
            prev.push(MissingView { package: l.control.package, missing: unsat })
        } else {
            prev
        }
    }
}

/// The batch in the order `o` gives.
pub open spec fn ordered_locals(locals: Seq<LocalPackage>, o: Seq<int>) -> Seq<LocalView> {
    o.map_values(|i: int| locals[i]@)
}

pub open spec fn pairs_view(p: Seq<(String, String)>) -> Seq<(Seq<char>, Seq<char>)> {
    p.map_values(|q: (String, String)| (q.0@, q.1@))
}

/// The map an association list with distinct keys stands for.
pub open spec fn assoc_map(p: Seq<(Seq<char>, Seq<char>)>) -> Map<Seq<char>, Seq<char>>
    decreases p.len(),
{
    if p.len() == 0 {
        Map::empty()
    } else {
        assoc_map(p.drop_last()).insert(p.last().0, p.last().1)
    }
}

pub open spec fn keys_unique(p: Seq<(Seq<char>, Seq<char>)>) -> bool {
    forall|i: int, j: int| 0 <= i < j < p.len() ==> #[trigger] p[i].0 != #[trigger] p[j].0
}

proof fn lemma_assoc_map(p: Seq<(Seq<char>, Seq<char>)>)
    requires
        keys_unique(p),
    ensures
        forall|j: int|
            0 <= j < p.len() ==> assoc_map(p).contains_key(#[trigger] p[j].0) && assoc_map(p)[p[j].0]
                == p[j].1,
        forall|k: Seq<char>|
            #[trigger] assoc_map(p).contains_key(k) ==> exists|j: int| 0 <= j < p.len() && p[j].0 == k,
    decreases p.len(),
{
    if p.len() > 0 {
        let q = p.drop_last();
        assert(keys_unique(q)) by {
            assert forall|i: int, j: int| 0 <= i < j < q.len() implies #[trigger] q[i].0 != #[trigger] q[j].0 by {
                assert(q[i] == p[i] && q[j] == p[j]);
            }
        }
        lemma_assoc_map(q);
        assert forall|j: int| 0 <= j < p.len() implies assoc_map(p).contains_key(#[trigger] p[j].0)
            && assoc_map(p)[p[j].0] == p[j].1 by {
            if j < p.len() - 1 {
                assert(q[j] == p[j]);
                assert(p[j].0 != p[p.len() - 1].0);
            }
        }
        assert forall|k: Seq<char>| #[trigger] assoc_map(p).contains_key(k) implies exists|j: int|
            0 <= j < p.len() && p[j].0 == k by {
            if k != p.last().0 {
                assert(assoc_map(q).contains_key(k));
                let j = choose|j: int| 0 <= j < q.len() && q[j].0 == k;
                assert(p[j] == q[j]);
            } else {
                assert(p[p.len() - 1].0 == k);
            }
        }
    }
}

proof fn lemma_assoc_update(p: Seq<(Seq<char>, Seq<char>)>, j: int, v: Seq<char>)
    requires
        keys_unique(p),
        0 <= j < p.len(),
    ensures
        assoc_map(p.update(j, (p[j].0, v))) == assoc_map(p).insert(p[j].0, v),
        keys_unique(p.update(j, (p[j].0, v))),
    decreases p.len(),
{
    let u = p.update(j, (p[j].0, v));
    assert(keys_unique(u)) by {
        assert forall|a: int, b: int| 0 <= a < b < u.len() implies #[trigger] u[a].0 != #[trigger] u[b].0 by {
            assert(u[a].0 == p[a].0 && u[b].0 == p[b].0);
        }
    }
    let q = p.drop_last();
    assert(keys_unique(q)) by {
        assert forall|a: int, b: int| 0 <= a < b < q.len() implies #[trigger] q[a].0 != #[trigger] q[b].0 by {
            assert(q[a] == p[a] && q[b] == p[b]);
        }
    }
    if j == p.len() - 1 {
        assert(u.drop_last() =~= q);
        assert(assoc_map(u) =~= assoc_map(p).insert(p[j].0, v));
    } else {
        lemma_assoc_update(q, j, v);
        assert(u.drop_last() =~= q.update(j, (q[j].0, v)));
        assert(p.last().0 != p[j].0);
        assert(assoc_map(u) =~= assoc_map(p).insert(p[j].0, v));
    }
}

proof fn lemma_unmet_pairs(es: Seq<Seq<ClauseView>>, pv: Seq<(Seq<char>, Seq<char>)>)
    requires
        keys_unique(pv),
    ensures
        unsatisfied(es, pv) == unmet(es, assoc_map(pv)),
    decreases es.len(),
{
    if es.len() > 0 {
        lemma_unmet_pairs(es.drop_last(), pv);
        lemma_assoc_map(pv);
        let e = es.last();
        let m = assoc_map(pv);
        assert(expr_satisfied(e, pv) == satisfied_in(e, m)) by {
            if expr_satisfied(e, pv) {
                let i = choose|i: int| 0 <= i < e.len() && #[trigger] clause_satisfied(e[i], pv);
                let j = choose|j: int|
                    0 <= j < pv.len() && #[trigger] pv[j].0 == e[i].name && constraint_matches(
                        e[i].constraint,
                        pv[j].1,
                    );
                assert(m.contains_key(pv[j].0));
            }
            if satisfied_in(e, m) {
                let i = choose|i: int|
                    0 <= i < e.len() && m.contains_key(#[trigger] e[i].name) && constraint_matches(
                        e[i].constraint,
                        m[e[i].name],
                    );
                let j = choose|j: int| 0 <= j < pv.len() && pv[j].0 == e[i].name;
                assert(pv[j].0 == e[i].name);
                assert(clause_satisfied(e[i], pv));
            }
        }
    }
}

/// Position of `key` in the association list.
fn find_key(pairs: &Vec<(String, String)>, key: &[char]) -> (r: Option<usize>)
    ensures
        match r {
            Some(j) => j < pairs@.len() && pairs_view(pairs@)[j as int].0 == key@,
            None => forall|j: int| 0 <= j < pairs@.len() ==> #[trigger] pairs_view(pairs@)[j].0 != key@,
        },
{
    let ghost pv = pairs_view(pairs@);
    let mut j: usize = 0;
    while j < pairs.len()
        invariant
            j <= pairs@.len(),
            pv == pairs_view(pairs@),
            forall|m: int| 0 <= m < j ==> #[trigger] pv[m].0 != key@,
        decreases pairs@.len() - j,
    {
        let k = chars_of(pairs[j].0.as_str());
        let same = same_chars(k.as_slice(), 0, k.len(), key, 0, key.len());
        proof {
            assert(k@.subrange(0, k@.len() as int) =~= k@);
            assert(key@.subrange(0, key@.len() as int) =~= key@);
            assert(pv[j as int].0 == k@);
        }
        if same {
            return Some(j);
        }
        j = j + 1;
    }
    None
}

/// Make `key` available at `value`: `insert` (replace) or, with
/// `keep_existing`, `entry().or_insert`.
fn put(pairs: &mut Vec<(String, String)>, key: &String, value: &String, keep_existing: bool)
    requires
        keys_unique(pairs_view(old(pairs)@)),
    ensures
        keys_unique(pairs_view(final(pairs)@)),
        assoc_map(pairs_view(final(pairs)@)) == if keep_existing && assoc_map(
            pairs_view(old(pairs)@),
        ).contains_key(key@) {
            assoc_map(pairs_view(old(pairs)@))
        } else {
            assoc_map(pairs_view(old(pairs)@)).insert(key@, value@)
        },
{
    let ghost pv = pairs_view(pairs@);
    proof {
        lemma_assoc_map(pv);
    }
    let kc = chars_of(key.as_str());
    match find_key(pairs, kc.as_slice()) {
        Some(j) => {
            if !keep_existing {
                pairs.set(j, (key.clone(), value.clone()));
                proof {
                    assert(pairs_view(pairs@) =~= pv.update(j as int, (pv[j as int].0, value@)));
                    lemma_assoc_update(pv, j as int, value@);
                }
            }
        },
        None => {
            proof {
                if assoc_map(pv).contains_key(key@) {
                    let j = choose|j: int| 0 <= j < pv.len() && pv[j].0 == key@;
                    assert(pv[j].0 != key@);
                }
            }
            pairs.push((key.clone(), value.clone()));
            proof {
                let nv = pairs_view(pairs@);
                assert(nv =~= pv.push((key@, value@)));
                assert(nv.drop_last() =~= pv);
                assert forall|a: int, b: int| 0 <= a < b < nv.len() implies #[trigger] nv[a].0 != #[trigger] nv[b].0 by {
                    if b == nv.len() - 1 {
                        assert(nv[a] == pv[a]);
                    } else {
                        assert(nv[a] == pv[a] && nv[b] == pv[b]);
                    }
                }
            }
        },
    }
}

/// Make a package available: its name at its version, then its provided
/// names where free.
fn offer_package(pairs: &mut Vec<(String, String)>, name: &String, version: &String, provides: &Vec<
    PackageRef,
>)
    requires
        keys_unique(pairs_view(old(pairs)@)),
    ensures
        keys_unique(pairs_view(final(pairs)@)),
        assoc_map(pairs_view(final(pairs)@)) == offer(
            assoc_map(pairs_view(old(pairs)@)),
            name@,
            version@,
            refs_view(provides@),
        ),
{
    let ghost m0 = assoc_map(pairs_view(pairs@));
    put(pairs, name, version, false);
    let ghost ps = refs_view(provides@);
    let mut k: usize = 0;
    while k < provides.len()
        invariant
            k <= provides@.len(),
            ps == refs_view(provides@),
            keys_unique(pairs_view(pairs@)),
            assoc_map(pairs_view(pairs@)) == offer_provides(
                m0.insert(name@, version@),
                ps.take(k as int),
                version@,
            ),
        decreases provides@.len() - k,
    {
        proof {
            assert(ps.take(k + 1).drop_last() =~= ps.take(k as int));
            assert(ps.take(k + 1).last() == provides@[k as int]@);
        }
        put(pairs, &provides[k].name, version, true);
        k = k + 1;
    }
    proof {
        assert(ps.take(provides@.len() as int) =~= ps);
    }
}

/// Borrowed `(name, version)` pairs of the association list.
fn borrow_pairs<'a>(pairs: &'a Vec<(String, String)>) -> (r: Vec<(&'a str, &'a str)>)
    ensures
        avail_view(r@) == pairs_view(pairs@),
{
    let mut out: Vec<(&'a str, &'a str)> = Vec::new();
    let mut j: usize = 0;
    while j < pairs.len()
        invariant
            j <= pairs@.len(),
            avail_view(out@) == pairs_view(pairs@).take(j as int),
        decreases pairs@.len() - j,
    {
        let ghost prev = out@;
        let p = (pairs[j].0.as_str(), pairs[j].1.as_str());
        out.push(p);
        proof {
            assert(avail_view(out@) =~= avail_view(prev).push((p.0@, p.1@)));
            assert(pairs_view(pairs@).take(j + 1) =~= pairs_view(pairs@).take(j as int).push(
                pairs_view(pairs@)[j as int],
            ));
        }
        j = j + 1;
    }
    proof {
        assert(pairs_view(pairs@).take(pairs@.len() as int) =~= pairs_view(pairs@));
    }
    out
}

pub open spec fn packages_view(v: Seq<DebPackage>) -> Seq<PackageView> {
    v.map_values(|p: DebPackage| p@)
}

/// Build a publish plan: topo-sort the batch and report unsatisfied
/// dependencies against the remote index plus the batch packages before
/// each one.
pub fn plan_push(remote: &[DebPackage], locals: &[LocalPackage]) -> (r: Result<PushPlan, ClientError>)
    ensures
        r is Ok <==> has_topological_order(local_graph(locals@), locals@.len() as int),
        r matches Ok(plan) ==> exists|o: Seq<int>|
            #[trigger] is_topological(o, local_graph(locals@), locals@.len() as int) && roots_first(
                o,
                local_graph(locals@),
                local_names(locals@),
            ) && breadth_first(o, local_graph(locals@)) && locals_view(plan.order@) == ordered_locals(locals@, o) && missing_view(
                plan.missing@,
            ) == missing_for(remote_available(packages_view(remote@)), locals_view(plan.order@)),
        r matches Err(e) ==> e matches ClientError::Message(m) && m@
            == "dependency cycle detected among local packages"@,
{
    let idx = match topo_sort(locals) {
        Ok(o) => o,
        Err(e) => return Err(e),
    };
    let ghost o = nodes_view(idx@);
    let mut order: Vec<LocalPackage> = Vec::new();
    let mut k: usize = 0;
    while k < idx.len()
        invariant
            k <= idx@.len(),
            o == nodes_view(idx@),
            is_topological(o, local_graph(locals@), locals@.len() as int),
            locals_view(order@) == ordered_locals(locals@, o.take(k as int)),
        decreases idx@.len() - k,
    {
        proof {
            assert(0 <= o[k as int] < locals@.len());
        }
        let ghost prev = order@;
        let l = locals[idx[k]].duplicate();
        order.push(l);
        proof {
            assert(locals_view(order@) =~= locals_view(prev).push(l@));
            assert(ordered_locals(locals@, o.take(k + 1)) =~= ordered_locals(locals@, o.take(k as int)).push(
                locals@[o[k as int]]@,
            ));
        }
        k = k + 1;
    }
    proof {
        assert(o.take(idx@.len() as int) =~= o);
    }
    let ghost rv = packages_view(remote@);
    let mut pairs: Vec<(String, String)> = Vec::new();
    let mut j: usize = 0;
    proof {
        assert(pairs_view(pairs@) =~= seq![]);
        assert(rv.take(0) =~= seq![]);
    }
    while j < remote.len()
        invariant
            j <= remote@.len(),
            rv == packages_view(remote@),
            keys_unique(pairs_view(pairs@)),
            assoc_map(pairs_view(pairs@)) == remote_available(rv.take(j as int)),
        decreases remote@.len() - j,
    {
        proof {
            assert(rv.take(j + 1).drop_last() =~= rv.take(j as int));
            assert(rv.take(j + 1).last() == remote@[j as int]@);
        }
        offer_package(&mut pairs, &remote[j].name, &remote[j].version, &remote[j].provides);
        j = j + 1;
    }
    proof {
        assert(rv.take(remote@.len() as int) =~= rv);
    }
    let ghost base = remote_available(rv);
    let ghost ov = locals_view(order@);
    let mut missing: Vec<MissingDependency> = Vec::new();
    let mut k: usize = 0;
    proof {
        assert(missing_view(missing@) =~= seq![]);
        assert(ov.take(0) =~= seq![]);
    }
    while k < order.len()
        invariant
            k <= order@.len(),
            ov == locals_view(order@),
            keys_unique(pairs_view(pairs@)),
            assoc_map(pairs_view(pairs@)) == available_after(base, ov.take(k as int)),
            missing_view(missing@) == missing_for(base, ov.take(k as int)),
        decreases order@.len() - k,
    {
        let local = &order[k];
        let deps = local.control.all_depends();
        proof {
            assert(ov.take(k + 1).drop_last() =~= ov.take(k as int));
            assert(ov.take(k + 1).last() == local@);
            lemma_unmet_pairs(exprs_view(deps@), pairs_view(pairs@));
        }
        {
            let avail = borrow_pairs(&pairs);
            match satisfies(deps.as_slice(), avail.as_slice()) {
                Ok(()) => {},
                Err(unsat) => {
                    let ghost prev = missing@;
                    let m = MissingDependency { package: local.control.package.clone(), missing: unsat };
                    missing.push(m);
                    proof {
                        assert(missing_view(missing@) =~= missing_view(prev).push(m@));
                    }
                },
            }
        }
        offer_package(&mut pairs, &local.control.package, &local.control.version, &local.control.provides);
        k = k + 1;
    }
    proof {
        assert(ov.take(order@.len() as int) =~= ov);
        assert(is_topological(o, local_graph(locals@), locals@.len() as int));
    }
    Ok(PushPlan { order, missing })
}

/// Dependency expressions in control syntax, joined by `, `.
pub open spec fn exprs_text(es: Seq<Seq<ClauseView>>) -> Seq<char>
    decreases es.len(),
{
    if es.len() == 0 {
        seq![]
    } else if es.len() == 1 {
        expr_text(es[0])
    } else {
        exprs_text(es.drop_last()) + ", "@ + expr_text(es.last())
    }
}

/// `{package} needs: {dependencies}`.
pub open spec fn needs_text(m: MissingView) -> Seq<char> {
    m.package + " needs: "@ + exprs_text(m.missing)
}

/// The packages with missing dependencies, joined by `; `.
pub open spec fn missing_detail(ms: Seq<MissingView>) -> Seq<char>
    decreases ms.len(),
{
    if ms.len() == 0 {
        seq![]
    } else if ms.len() == 1 {
        needs_text(ms[0])
    } else {
        missing_detail(ms.drop_last()) + "; "@ + needs_text(ms.last())
    }
}

/// Why a push with missing dependencies is refused.
pub open spec fn refusal_text(ms: Seq<MissingView>) -> Seq<char> {
    "refusing publish \u{2014} missing dependencies: "@ + missing_detail(ms)
}

fn push_exprs(out: &mut String, es: &Vec<DependencyExpr>)
    ensures
        final(out)@ == old(out)@ + exprs_text(exprs_view(es@)),
{
    let ghost start = out@;
    let ghost v = exprs_view(es@);
    let mut i: usize = 0;
    while i < es.len()
        invariant
            i <= es@.len(),
            v == exprs_view(es@),
            out@ == start + exprs_text(v.take(i as int)),
        decreases es@.len() - i,
    {
        proof {
            assert(v.take(i + 1).drop_last() =~= v.take(i as int));
            assert(v[i as int] == es@[i as int]@);
        }
        if i > 0 {
            push_str(out, ", ");
        }
        let t = es[i].to_string();
        push_str(out, t.as_str());
        proof {
            if i == 0 {
                assert(v.take(0) =~= Seq::<Seq<ClauseView>>::empty());
                assert(out@ =~= start + exprs_text(v.take(1)));
            } else {
                assert(out@ =~= start + exprs_text(v.take(i + 1)));
            }
        }
        i = i + 1;
    }
    proof {
        assert(v.take(es@.len() as int) =~= v);
    }
}

/// The refusal message for a push whose plan misses dependencies.
pub fn refusal_message(missing: &Vec<MissingDependency>) -> (r: String)
    ensures
        r@ == refusal_text(missing_view(missing@)),
{
    let mut out = "refusing publish \u{2014} missing dependencies: ".to_string();
    let ghost start = out@;
    let ghost v = missing_view(missing@);
    let mut i: usize = 0;
    while i < missing.len()
        invariant
            i <= missing@.len(),
            v == missing_view(missing@),
            out@ == start + missing_detail(v.take(i as int)),
        decreases missing@.len() - i,
    {
        proof {
            assert(v.take(i + 1).drop_last() =~= v.take(i as int));
            assert(v[i as int] == missing@[i as int]@);
        }
        if i > 0 {
            push_str(&mut out, "; ");
        }
        push_str(&mut out, missing[i].package.as_str());
        push_str(&mut out, " needs: ");
        push_exprs(&mut out, &missing[i].missing);
        proof {
            if i == 0 {
                assert(v.take(0) =~= Seq::<MissingView>::empty());
                assert(out@ =~= start + missing_detail(v.take(1)));
            } else {
                assert(out@ =~= start + missing_detail(v.take(i + 1)));
            }
        }
        i = i + 1;
    }
    proof {
        assert(v.take(missing@.len() as int) =~= v);
    }
    out
}

/// Whether a planned push may go ahead: always when nothing is missing or
/// missing dependencies are allowed, else refused with the refusal message.
pub fn check_push(plan: &PushPlan, allow_missing: bool) -> (r: Result<(), ClientError>)
    ensures
        (plan.missing@.len() == 0 || allow_missing) ==> r is Ok,
        !(plan.missing@.len() == 0 || allow_missing) ==> (r matches Err(ClientError::Message(m))
            && m@ == refusal_text(missing_view(plan.missing@))),
{
    if plan.missing.len() > 0 && !allow_missing {
        return Err(ClientError::Message(refusal_message(&plan.missing)));
    }
    Ok(())
}

/// The dependencies a package of the batch must have met.
pub open spec fn deps_of(l: LocalView) -> Seq<Seq<ClauseView>> {
    l.control.pre_depends + l.control.depends
}

proof fn lemma_unmet_empty(es: Seq<Seq<ClauseView>>, m: Map<Seq<char>, Seq<char>>)
    ensures
        unmet(es, m).len() == 0 <==> forall|j: int| 0 <= j < es.len() ==> #[trigger] satisfied_in(es[j], m),
    decreases es.len(),
{
    if es.len() > 0 {
        lemma_unmet_len(es.drop_last(), m);
        lemma_unmet_empty(es.drop_last(), m);
        if unmet(es, m).len() == 0 {
            assert forall|j: int| 0 <= j < es.len() implies #[trigger] satisfied_in(es[j], m) by {
                if j < es.len() - 1 {
                    assert(es.drop_last()[j] == es[j]);
                }
            }
        }
        if forall|j: int| 0 <= j < es.len() ==> #[trigger] satisfied_in(es[j], m) {
            assert(satisfied_in(es[es.len() - 1], m));
            assert forall|j: int| 0 <= j < es.drop_last().len() implies #[trigger] satisfied_in(
                es.drop_last()[j],
                m,
            ) by {
                assert(es.drop_last()[j] == es[j]);
            }
        }
    }
}

proof fn lemma_unmet_len(es: Seq<Seq<ClauseView>>, m: Map<Seq<char>, Seq<char>>)
    ensures
        unmet(es, m).len() <= es.len(),
    decreases es.len(),
{
    if es.len() > 0 {
        lemma_unmet_len(es.drop_last(), m);
    }
}

proof fn lemma_missing_for_len(base: Map<Seq<char>, Seq<char>>, order: Seq<LocalView>)
    ensures
        missing_for(base, order).len() <= order.len(),
    decreases order.len(),
{
    if order.len() > 0 {
        lemma_missing_for_len(base, order.drop_last());
    }
}

/// A push goes ahead without `--allow-missing-deps` exactly when every
/// `Depends` and `Pre-Depends` expression of every package in the push
/// order is satisfied by the remote index or by a package earlier in the
/// same push.
pub proof fn lemma_push_goes_ahead_iff_satisfied(
    base: Map<Seq<char>, Seq<char>>,
    order: Seq<LocalView>,
)
    ensures
        missing_for(base, order).len() == 0 <==> forall|k: int, j: int|
            0 <= k < order.len() && 0 <= j < deps_of(order[k]).len() ==> #[trigger] satisfied_in(
                deps_of(order[k])[j],
                available_after(base, order.take(k)),
            ),
    decreases order.len(),
{
    if order.len() > 0 {
        let prev = order.drop_last();
        let n = order.len() - 1;
        lemma_push_goes_ahead_iff_satisfied(base, prev);
        lemma_missing_for_len(base, prev);
        lemma_unmet_empty(deps_of(order[n]), available_after(base, prev));
        assert(order.take(n) =~= prev);
        assert forall|k: int| 0 <= k < n implies #[trigger] order.take(k) == prev.take(k) && order[k]
            == prev[k] by {
            assert(order.take(k) =~= prev.take(k));
        }
        if missing_for(base, order).len() == 0 {
            assert forall|k: int, j: int|
                0 <= k < order.len() && 0 <= j < deps_of(order[k]).len() implies #[trigger] satisfied_in(
                deps_of(order[k])[j],
                available_after(base, order.take(k)),
            ) by {
                if k < n {
                    assert(order.take(k) == prev.take(k) && order[k] == prev[k]);
                    assert(satisfied_in(deps_of(prev[k])[j], available_after(base, prev.take(k))));
                }
            }
        }
        if forall|k: int, j: int|
            0 <= k < order.len() && 0 <= j < deps_of(order[k]).len() ==> #[trigger] satisfied_in(
                deps_of(order[k])[j],
                available_after(base, order.take(k)),
            ) {
            assert forall|k: int, j: int|
                0 <= k < prev.len() && 0 <= j < deps_of(prev[k]).len() implies #[trigger] satisfied_in(
                deps_of(prev[k])[j],
                available_after(base, prev.take(k)),
            ) by {
                assert(order.take(k) == prev.take(k) && order[k] == prev[k]);
                assert(satisfied_in(deps_of(order[k])[j], available_after(base, order.take(k))));
            }
            assert forall|j: int| 0 <= j < deps_of(order[n]).len() implies #[trigger] satisfied_in(
                deps_of(order[n])[j],
                available_after(base, prev),
            ) by {
                assert(satisfied_in(deps_of(order[n])[j], available_after(base, order.take(n))));
            }
        }
    }
}

// ---------------------------------------------------------------------------
// The push order is determined

proof fn lemma_pos_same(s1: Seq<int>, s2: Seq<int>, m: int, x: int)
    requires
        0 <= m <= s1.len(),
        m <= s2.len(),
        s1.take(m) == s2.take(m),
        s1.take(m).contains(x),
    ensures
        pos_in(s1, x) == pos_in(s2, x),
        0 <= pos_in(s1, x) < m,
{
    lemma_pos_in(s1, x);
    lemma_pos_in(s2, x);
    let i = choose|i: int| 0 <= i < m && s1.take(m)[i] == x;
    assert(s1[i] == x);
    assert(s2.take(m)[i] == s2[i]);
    assert(s2[i] == x);
    let a = pos_in(s1, x);
    let b = pos_in(s2, x);
    assert(a <= i);
    assert(b <= i);
    assert(s1.take(m)[a] == s1[a]);
    assert(s2.take(m)[a] == s2[a]);
    assert(s1.take(m)[b] == s1[b]);
    assert(s2.take(m)[b] == s2[b]);
}

proof fn lemma_last_pos_same(s1: Seq<int>, s2: Seq<int>, m: int, ps: Seq<int>)
    requires
        0 <= m <= s1.len(),
        m <= s2.len(),
        s1.take(m) == s2.take(m),
        forall|t: int| 0 <= t < ps.len() ==> s1.take(m).contains(#[trigger] ps[t]),
    ensures
        last_pos(s1, ps) == last_pos(s2, ps),
        last_pos(s1, ps) < m,
    decreases ps.len(),
{
    if ps.len() > 0 {
        lemma_last_pos_same(s1, s2, m, ps.drop_last());
        assert(s1.take(m).contains(ps[ps.len() - 1]));
        lemma_pos_same(s1, s2, m, ps.last());
    }
}

proof fn lemma_prefix_agree(
    o1: Seq<int>,
    o2: Seq<int>,
    g: Seq<Seq<int>>,
    names: Seq<Seq<char>>,
    n: int,
    k1: int,
    k2: int,
    m: int,
)
    requires
        is_topological(o1, g, n),
        is_topological(o2, g, n),
        roots_prefix(o1, g, names, k1),
        roots_prefix(o2, g, names, k2),
        breadth_first(o1, g),
        breadth_first(o2, g),
        0 <= m <= n,
    ensures
        o1.take(m) == o2.take(m),
    decreases m,
{
    if m > 0 {
        let j = m - 1;
        lemma_prefix_agree(o1, o2, g, names, n, k1, k2, j);
        let x = o1[j];
        let y = o2[j];
        if x != y {
            lemma_distinct_len(o1, n);
            lemma_distinct_len(o2, n);
            assert(0 <= o2[j] < n);
            assert(o1.contains(y));
            assert(0 <= o1[j] < n);
            assert(o2.contains(x));
            let q1 = choose|q: int| 0 <= q < o1.len() && o1[q] == y;
            let q2 = choose|q: int| 0 <= q < o2.len() && o2[q] == x;
            assert(q1 > j) by {
                if q1 < j {
                    assert(o1.take(j)[q1] == y);
                    assert(o2.take(j)[q1] == o2[q1]);
                    assert(o2[q1] == y);
                }
            }
            assert(q2 > j) by {
                if q2 < j {
                    assert(o2.take(j)[q2] == x);
                    assert(o1.take(j)[q2] == o1[q2]);
                    assert(o1[q2] == x);
                }
            }
            if j < k1 && j < k2 {
                assert(g[o2[j]].len() == 0);
                assert(g[o1[j]].len() == 0);
                assert(q1 < k1) by {
                    if q1 >= k1 {
                        assert(g[o1[q1]].len() > 0);
                    }
                }
                assert(q2 < k2) by {
                    if q2 >= k2 {
                        assert(g[o2[q2]].len() > 0);
                    }
                }
                assert(name_key_lt(names, o1[j], o1[q1]));
                assert(name_key_lt(names, o2[j], o2[q2]));
                if text_lt(names[x], names[y]) {
                    lemma_text_lt_asymmetric(names[x], names[y]);
                    if names[y] == names[x] {
                        lemma_text_lt_irreflexive(names[x]);
                    }
                } else if text_lt(names[y], names[x]) {
                    lemma_text_lt_irreflexive(names[y]);
                }
            } else if j >= k1 && j < k2 {
                assert(g[o2[j]].len() == 0);
                assert(g[o1[q1]].len() > 0);
            } else if j < k1 && j >= k2 {
                assert(g[o1[j]].len() == 0);
                assert(g[o2[q2]].len() > 0);
            } else {
                assert(g[o1[j]].len() > 0);
                assert(g[o2[j]].len() > 0);
                assert(g[o1[q1]].len() > 0);
                assert(g[o2[q2]].len() > 0);
                assert(queue_before(o1, g, o1[j], o1[q1]));
                assert(queue_before(o2, g, o2[j], o2[q2]));
                assert forall|t: int| 0 <= t < g[x].len() implies o1.take(j).contains(#[trigger] g[x][t]) by {
                    assert(o1.take(j).contains(g[o1[j]][t]));
                }
                assert forall|t: int| 0 <= t < g[y].len() implies o1.take(j).contains(#[trigger] g[y][t]) by {
                    assert(o2.take(j).contains(g[o2[j]][t]));
                }
                lemma_last_pos_same(o1, o2, j, g[x]);
                lemma_last_pos_same(o1, o2, j, g[y]);
            }
        }
        assert(o1.take(m) =~= o1.take(j).push(x));
        assert(o2.take(m) =~= o2.take(j).push(y));
    }
}

/// The push order is determined by its properties: two orders of the same
/// batch that are both topological, start with the packages that depend on
/// no other batch package sorted by name, and follow the queue order after
/// them are the same order. So the plan's order is the very order the
/// dependency sort returns.
pub proof fn lemma_push_order_unique(
    o1: Seq<int>,
    o2: Seq<int>,
    g: Seq<Seq<int>>,
    names: Seq<Seq<char>>,
    n: int,
)
    requires
        is_topological(o1, g, n),
        is_topological(o2, g, n),
        roots_first(o1, g, names),
        roots_first(o2, g, names),
        breadth_first(o1, g),
        breadth_first(o2, g),
    ensures
        o1 == o2,
{
    let k1 = choose|k: int| #[trigger] roots_prefix(o1, g, names, k);
    let k2 = choose|k: int| #[trigger] roots_prefix(o2, g, names, k);
    lemma_prefix_agree(o1, o2, g, names, n, k1, k2, n);
    assert(o1.take(n) =~= o1);
    assert(o2.take(n) =~= o2);
}

// ---------------------------------------------------------------------------
// What a planned package makes available

proof fn lemma_offer_provides_keeps(m: Map<Seq<char>, Seq<char>>, ps: Seq<Seq<char>>, version: Seq<char>, k: Seq<char>)
    requires
        m.contains_key(k),
    ensures
        offer_provides(m, ps, version).contains_key(k),
        offer_provides(m, ps, version)[k] == m[k],
    decreases ps.len(),
{
    if ps.len() > 0 {
        lemma_offer_provides_keeps(m, ps.drop_last(), version, k);
    }
}

/// Once the batch package at position `k` of the push order is planned,
/// the packages after it see that package at its own version, whatever the
/// remote index or earlier packages offered under that name.
pub proof fn lemma_planned_package_available(
    base: Map<Seq<char>, Seq<char>>,
    order: Seq<LocalView>,
    k: int,
)
    requires
        0 <= k < order.len(),
    ensures
        available_after(base, order.take(k + 1)).contains_key(order[k].control.package),
        available_after(base, order.take(k + 1))[order[k].control.package] == order[k].control.version,
{
    let t = order.take(k + 1);
    assert(t.drop_last() =~= order.take(k));
    assert(t.last() == order[k]);
    let m = available_after(base, order.take(k));
    let l = order[k];
    lemma_offer_provides_keeps(
        m.insert(l.control.package, l.control.version),
        l.control.provides,
        l.control.version,
        l.control.package,
    );
}

/// What offering a package does to the available set, entry by entry: its
/// own name maps to its version (replacing any earlier entry); each name it
/// provides that was not yet available maps to its version; every other
/// entry stays as it was, and nothing else becomes available.
pub proof fn lemma_offer_entries(
    m: Map<Seq<char>, Seq<char>>,
    name: Seq<char>,
    version: Seq<char>,
    ps: Seq<Seq<char>>,
    x: Seq<char>,
)
    ensures
        x == name ==> offer(m, name, version, ps).contains_key(x) && offer(m, name, version, ps)[x]
            == version,
        x != name && ps.contains(x) && !m.contains_key(x) ==> offer(m, name, version, ps).contains_key(
            x,
        ) && offer(m, name, version, ps)[x] == version,
        x != name && (!ps.contains(x) || m.contains_key(x)) ==> (offer(
            m,
            name,
            version,
            ps,
        ).contains_key(x) <==> m.contains_key(x)),
        x != name && (!ps.contains(x) || m.contains_key(x)) && m.contains_key(x) ==> offer(
            m,
            name,
            version,
            ps,
        )[x] == m[x],
{
    lemma_offer_provides_entries(m.insert(name, version), ps, version, x);
}

proof fn lemma_offer_provides_entries(
    m: Map<Seq<char>, Seq<char>>,
    ps: Seq<Seq<char>>,
    version: Seq<char>,
    x: Seq<char>,
)
    ensures
        m.contains_key(x) ==> offer_provides(m, ps, version).contains_key(x) && offer_provides(
            m,
            ps,
            version,
        )[x] == m[x],
        !m.contains_key(x) && ps.contains(x) ==> offer_provides(m, ps, version).contains_key(x)
            && offer_provides(m, ps, version)[x] == version,
        !m.contains_key(x) && !ps.contains(x) ==> !offer_provides(m, ps, version).contains_key(x),
    decreases ps.len(),
{
    if ps.len() > 0 {
        let d = ps.drop_last();
        lemma_offer_provides_entries(m, d, version, x);
        if !m.contains_key(x) && ps.contains(x) && !d.contains(x) {
            let i = choose|i: int| 0 <= i < ps.len() && ps[i] == x;
            if i < ps.len() - 1 {
                assert(d[i] == x);
            }
        }
        if !ps.contains(x) && d.contains(x) {
            let i = choose|i: int| 0 <= i < d.len() && d[i] == x;
            assert(ps[i] == x);
        }
        if d.contains(x) {
            let i = choose|i: int| 0 <= i < d.len() && d[i] == x;
            assert(ps[i] == x);
        }
    }
}

/// Planning the batch package at position `k` changes what later packages
/// see exactly as offering it does (see [`lemma_offer_entries`]): its own
/// name at its version, its provided names where still free, nothing else.
pub proof fn lemma_planned_package_offers(
    base: Map<Seq<char>, Seq<char>>,
    order: Seq<LocalView>,
    k: int,
)
    requires
        0 <= k < order.len(),
    ensures
        available_after(base, order.take(k + 1)) == offer(
            available_after(base, order.take(k)),
            order[k].control.package,
            order[k].control.version,
            order[k].control.provides,
        ),
{
    let t = order.take(k + 1);
    assert(t.drop_last() =~= order.take(k));
    assert(t.last() == order[k]);
}

/// The remote index offers its packages in turn, as a planned batch
/// package does: after the remote package at position `k`, its own name
/// maps to its version.
pub proof fn lemma_remote_package_available(remote: Seq<PackageView>, k: int)
    requires
        0 <= k < remote.len(),
    ensures
        remote_available(remote.take(k + 1)) == offer(
            remote_available(remote.take(k)),
            remote[k].name,
            remote[k].version,
            remote[k].provides,
        ),
        remote_available(remote.take(k + 1)).contains_key(remote[k].name),
        remote_available(remote.take(k + 1))[remote[k].name] == remote[k].version,
{
    let t = remote.take(k + 1);
    assert(t.drop_last() =~= remote.take(k));
    assert(t.last() == remote[k]);
    lemma_offer_entries(
        remote_available(remote.take(k)),
        remote[k].name,
        remote[k].version,
        remote[k].provides,
        remote[k].name,
    );
}

} // verus!
