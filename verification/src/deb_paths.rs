//! The order of collected `.deb` paths: `Path`'s own order, component by
//! component, each path once.

use vstd::prelude::*;

use crate::text::{
    lemma_text_lt_irreflexive, lemma_text_lt_total, lemma_text_lt_transitive, same_text, str_less,
    text_lt,
};

verus! {

/// One component of a path, as `Path::components` yields it on Unix.
pub enum PathPart {
    Root,
    Cur,
    Parent,
    Normal(String),
}

pub enum PartView {
    Root,
    Cur,
    Parent,
    Normal(Seq<char>),
}

impl View for PathPart {
    type V = PartView;

    open spec fn view(&self) -> PartView {
        match self {
            PathPart::Root => PartView::Root,
            PathPart::Cur => PartView::Cur,
            PathPart::Parent => PartView::Parent,
            PathPart::Normal(s) => PartView::Normal(s@),
        }
    }
}

pub open spec fn parts_view(v: Seq<PathPart>) -> Seq<PartView> {
    v.map_values(|p: PathPart| p@)
}

/// The order of `std::path::Component`: by kind (root, `.`, `..`, name),
/// then names by their text.
pub open spec fn rank(p: PartView) -> int {
    match p {
        PartView::Root => 0,
        PartView::Cur => 1,
        PartView::Parent => 2,
        PartView::Normal(_) => 3,
    }
}

pub open spec fn part_lt(a: PartView, b: PartView) -> bool {
    rank(a) < rank(b) || match (a, b) {
        (PartView::Normal(x), PartView::Normal(y)) => text_lt(x, y),
        _ => false,
    }
}

/// `Path`'s order: its components compared in turn, a path before every
/// longer one that starts with it.
pub open spec fn parts_lt(a: Seq<PartView>, b: Seq<PartView>) -> bool
    decreases a.len(),
{
    if a.len() == 0 {
        b.len() > 0
    } else if b.len() == 0 {
        false
    } else if a[0] == b[0] {
        parts_lt(a.drop_first(), b.drop_first())
    } else {
        part_lt(a[0], b[0])
    }
}

proof fn lemma_part_total(a: PartView, b: PartView)
    ensures
        part_lt(a, b) || part_lt(b, a) || a == b,
        !(part_lt(a, b) && part_lt(b, a)),
        !part_lt(a, a),
{
    match (a, b) {
        (PartView::Normal(x), PartView::Normal(y)) => {
            lemma_text_lt_total(x, y);
            lemma_text_lt_irreflexive(x);
            if text_lt(x, y) && text_lt(y, x) {
                lemma_text_lt_transitive(x, y, x);
            }
        },
        (PartView::Normal(x), _) => {
            lemma_text_lt_irreflexive(x);
        },
        _ => {},
    }
}

proof fn lemma_part_transitive(a: PartView, b: PartView, c: PartView)
    requires
        part_lt(a, b),
        part_lt(b, c),
    ensures
        part_lt(a, c),
{
    match (a, b, c) {
        (PartView::Normal(x), PartView::Normal(y), PartView::Normal(z)) => {
            lemma_text_lt_transitive(x, y, z);
        },
        _ => {},
    }
}

pub proof fn lemma_parts_irreflexive(a: Seq<PartView>)
    ensures
        !parts_lt(a, a),
    decreases a.len(),
{
    if a.len() > 0 {
        lemma_parts_irreflexive(a.drop_first());
    }
}

pub proof fn lemma_parts_transitive(a: Seq<PartView>, b: Seq<PartView>, c: Seq<PartView>)
    requires
        parts_lt(a, b),
        parts_lt(b, c),
    ensures
        parts_lt(a, c),
    decreases a.len(),
{
    if a.len() > 0 && b.len() > 0 && c.len() > 0 {
        lemma_part_total(a[0], b[0]);
        lemma_part_total(b[0], c[0]);
        lemma_part_total(a[0], c[0]);
        if a[0] == b[0] && b[0] == c[0] {
            lemma_parts_transitive(a.drop_first(), b.drop_first(), c.drop_first());
        } else if a[0] != b[0] && b[0] != c[0] {
            lemma_part_transitive(a[0], b[0], c[0]);
        }
    }
}

pub proof fn lemma_parts_total(a: Seq<PartView>, b: Seq<PartView>)
    ensures
        parts_lt(a, b) || parts_lt(b, a) || a == b,
    decreases a.len(),
{
    if a.len() > 0 && b.len() > 0 {
        lemma_part_total(a[0], b[0]);
        if a[0] == b[0] {
            lemma_parts_total(a.drop_first(), b.drop_first());
            if a.drop_first() == b.drop_first() {
                assert(a =~= seq![a[0]] + a.drop_first());
                assert(b =~= seq![b[0]] + b.drop_first());
            }
        }
    } else if a.len() == 0 && b.len() == 0 {
        assert(a =~= b);
    }
}

fn part_rank(p: &PathPart) -> (r: u8)
    ensures
        r as int == rank(p@),
{
    match p {
        PathPart::Root => 0,
        PathPart::Cur => 1,
        PathPart::Parent => 2,
        PathPart::Normal(_) => 3,
    }
}

fn part_less(a: &PathPart, b: &PathPart) -> (r: bool)
    ensures
        r == part_lt(a@, b@),
{
    match (a, b) {
        (PathPart::Normal(x), PathPart::Normal(y)) => str_less(x.as_str(), y.as_str()),
        _ => part_rank(a) < part_rank(b),
    }
}

fn part_same(a: &PathPart, b: &PathPart) -> (r: bool)
    ensures
        r == (a@ == b@),
{
    match (a, b) {
        (PathPart::Normal(x), PathPart::Normal(y)) => same_text(x.as_str(), y.as_str()),
        _ => part_rank(a) == part_rank(b),
    }
}

/// Whether the path `a` orders before `b`, and whether they are the same.
fn compare_parts(a: &Vec<PathPart>, b: &Vec<PathPart>) -> (r: (bool, bool))
    ensures
        r.0 == parts_lt(parts_view(a@), parts_view(b@)),
        r.1 == (parts_view(a@) == parts_view(b@)),
{
    let ghost av = parts_view(a@);
    let ghost bv = parts_view(b@);
    let mut i: usize = 0;
    proof {
        assert(av.skip(0) =~= av);
        assert(bv.skip(0) =~= bv);
    }
    while i < a.len() && i < b.len()
        invariant
            i <= a@.len() == av.len(),
            i <= b@.len() == bv.len(),
            av == parts_view(a@),
            bv == parts_view(b@),
            parts_lt(av.skip(i as int), bv.skip(i as int)) == parts_lt(av, bv),
            av.take(i as int) == bv.take(i as int),
        decreases a@.len() - i,
    {
        proof {
            assert(av.skip(i as int).drop_first() =~= av.skip(i + 1));
            assert(bv.skip(i as int).drop_first() =~= bv.skip(i + 1));
            assert(av[i as int] == a@[i as int]@);
            assert(bv[i as int] == b@[i as int]@);
        }
        if !part_same(&a[i], &b[i]) {
            proof {
                if av == bv {
                    assert(av[i as int] == bv[i as int]);
                }
            }
            return (part_less(&a[i], &b[i]), false);
        }
        proof {
            assert(av.take(i + 1) =~= av.take(i as int).push(av[i as int]));
            assert(bv.take(i + 1) =~= bv.take(i as int).push(bv[i as int]));
        }
        i = i + 1;
    }
    proof {
        if i == a.len() && i == b.len() {
            assert(av =~= av.take(i as int));
            assert(bv =~= bv.take(i as int));
        } else if av == bv {
            assert(av.len() == bv.len());
        }
    }
    (i == a.len() && i < b.len(), i == a.len() && i == b.len())
}

/// `order` lists positions of `paths` whose paths are in strictly
/// increasing order.
pub open spec fn strictly_ordered(paths: Seq<Seq<PartView>>, order: Seq<int>) -> bool {
    &&& forall|k: int| 0 <= k < order.len() ==> 0 <= #[trigger] order[k] < paths.len()
    &&& forall|a: int, b: int|
        0 <= a < b < order.len() ==> parts_lt(paths[#[trigger] order[a]], paths[#[trigger] order[b]])
}

/// Every path of `paths[..n]` is the path at some position of `order`.
pub open spec fn covers(paths: Seq<Seq<PartView>>, order: Seq<int>, n: int) -> bool {
    forall|j: int|
        #![trigger paths[j]]
        0 <= j < n ==> exists|k: int| 0 <= k < order.len() && paths[#[trigger] order[k]] == paths[j]
}

pub open spec fn paths_view(v: Seq<Vec<PathPart>>) -> Seq<Seq<PartView>> {
    v.map_values(|p: Vec<PathPart>| parts_view(p@))
}

/// The collected paths sorted in `Path` order with repeats dropped, as the
/// positions in `paths` of the ones kept (the first of equal ones).
pub fn sorted_unique_paths(paths: &Vec<Vec<PathPart>>) -> (r: Vec<usize>)
    ensures
        strictly_ordered(paths_view(paths@), r@.map_values(|k: usize| k as int)),
        covers(paths_view(paths@), r@.map_values(|k: usize| k as int), paths@.len() as int),
{
    let ghost pv = paths_view(paths@);
    let mut out: Vec<usize> = Vec::new();
    let mut i: usize = 0;
    while i < paths.len()
        invariant
            i <= paths@.len() == pv.len(),
            pv == paths_view(paths@),
            strictly_ordered(pv, out@.map_values(|k: usize| k as int)),
            covers(pv, out@.map_values(|k: usize| k as int), i as int),
        decreases paths@.len() - i,
    {
        let ghost o = out@.map_values(|k: usize| k as int);
        let mut pos: usize = 0;
        let mut same = false;
        while pos < out.len()
            invariant_except_break
                !same,
            invariant
                pos <= out@.len() == o.len(),
                i < pv.len(),
                pv == paths_view(paths@),
                o == out@.map_values(|k: usize| k as int),
                strictly_ordered(pv, o),
                forall|k: int| 0 <= k < pos ==> parts_lt(pv[#[trigger] o[k]], pv[i as int]),
            ensures
                same ==> pos < o.len() && pv[o[pos as int]] == pv[i as int],
                !same ==> pos == o.len() || (pos < o.len() && !parts_lt(pv[o[pos as int]], pv[i as int])
                    && pv[o[pos as int]] != pv[i as int]),
            decreases out@.len() - pos,
        {
            assert(o[pos as int] == out@[pos as int] as int);
            assert(pv[out@[pos as int] as int] == parts_view(paths@[out@[pos as int] as int]@));
            assert(pv[i as int] == parts_view(paths@[i as int]@));
            let (less, eq) = compare_parts(&paths[out[pos]], &paths[i]);
            if !less {
                same = eq;
                break;
            }
            pos = pos + 1;
        }
        proof {
            lemma_parts_irreflexive(pv[i as int]);
        }
        if same {
            proof {
                assert(pv[o[pos as int]] == pv[i as int]);
                assert forall|j: int| #![trigger pv[j]] 0 <= j < i + 1 implies exists|k: int|
                    0 <= k < o.len() && pv[#[trigger] o[k]] == pv[j] by {
                    if j == i {
                        assert(pv[o[pos as int]] == pv[j]);
                    }
                }
            }
        } else {
            let ghost before = out@;
            out.insert(pos, i);
            proof {
                let n = out@.map_values(|k: usize| k as int);
                assert(n =~= o.insert(pos as int, i as int));
                if pos < o.len() {
                    lemma_parts_total(pv[o[pos as int]], pv[i as int]);
                }
                assert forall|a: int, b: int| 0 <= a < b < n.len() implies parts_lt(
                    pv[#[trigger] n[a]],
                    pv[#[trigger] n[b]],
                ) by {
                    if a < pos && b == pos {
                    } else if a == pos && b > pos {
                        assert(n[b] == o[b - 1]);
                        if b - 1 > pos {
                            lemma_parts_transitive(pv[i as int], pv[o[pos as int]], pv[o[b - 1]]);
                        }
                    } else if a < pos && b > pos {
                        assert(n[b] == o[b - 1]);
                    } else if a > pos {
                        assert(n[a] == o[a - 1]);
                        assert(n[b] == o[b - 1]);
                    }
                }
                assert forall|j: int| #![trigger pv[j]] 0 <= j < i + 1 implies exists|k: int|
                    0 <= k < n.len() && pv[#[trigger] n[k]] == pv[j] by {
                    if j == i {
                        assert(pv[n[pos as int]] == pv[j]);
                    } else {
                        let k = choose|k: int| 0 <= k < o.len() && pv[#[trigger] o[k]] == pv[j];
                        if k < pos {
                            assert(n[k] == o[k]);
                        } else {
                            assert(n[k + 1] == o[k]);
                        }
                    }
                }
            }
        }
        i = i + 1;
    }
    out
}

} // verus!
