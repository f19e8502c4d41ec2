//! Stable sorting by a strict weak order.

use vstd::prelude::*;

use crate::graph::distinct_nodes;

verus! {

/// A strict weak order: what `sort_by` with a comparator orders by.
pub trait SortOrder: Sized {
    /// Whether `a` sorts strictly before `b`.
    spec fn before(a: Self, b: Self) -> bool;

    proof fn lemma_irreflexive(a: Self)
        ensures
            !Self::before(a, a),
    ;

    proof fn lemma_transitive(a: Self, b: Self, c: Self)
        requires
            Self::before(a, b),
            Self::before(b, c),
        ensures
            Self::before(a, c),
    ;

    /// Ties are transitive: `a` not before `b` and `b` not before `c` means
    /// `a` is not before `c`.
    proof fn lemma_not_before_transitive(a: Self, b: Self, c: Self)
        requires
            !Self::before(a, b),
            !Self::before(b, c),
        ensures
            !Self::before(a, c),
    ;

    fn is_before(&self, other: &Self) -> (r: bool)
        ensures
            r == Self::before(*self, *other),
    ;
}

/// `p` maps each position of `r` to the position of `s` it came from;
/// `r` is in order, and entries that tie keep their order in `s`.
pub open spec fn stable_sort_witness<T: SortOrder>(r: Seq<T>, s: Seq<T>, p: Seq<int>) -> bool {
    &&& r.len() == s.len()
    &&& p.len() == s.len()
    &&& distinct_nodes(p, s.len() as int)
    &&& forall|k: int| 0 <= k < r.len() ==> #[trigger] r[k] == s[p[k]]
    &&& forall|a: int, b: int| 0 <= a < b < r.len() ==> !T::before(#[trigger] r[b], #[trigger] r[a])
    &&& forall|a: int, b: int|
        0 <= a < b < r.len() && !T::before(#[trigger] r[a], #[trigger] r[b]) ==> p[a] < p[b]
}

/// `r` is `s` stably sorted.
pub open spec fn is_stable_sort_of<T: SortOrder>(r: Seq<T>, s: Seq<T>) -> bool {
    exists|p: Seq<int>| #[trigger] stable_sort_witness(r, s, p)
}

/// Sorts `v` stably: an entry moves before another only when it sorts
/// strictly before it.
pub fn stable_sort<T: SortOrder>(v: &mut Vec<T>)
    ensures
        is_stable_sort_of(final(v)@, old(v)@),
{
    let ghost s = v@;
    let mut input: Vec<T> = Vec::new();
    std::mem::swap(v, &mut input);
    let mut out: Vec<T> = Vec::new();
    let ghost mut p: Seq<int> = seq![];
    let n = input.len();
    let mut i: usize = 0;
    while i < n
        invariant
            n == s.len(),
            i <= n,
            input@ == s.skip(i as int),
            out@.len() == i,
            p.len() == i,
            distinct_nodes(p, i as int),
            forall|k: int| 0 <= k < out@.len() ==> #[trigger] out@[k] == s[p[k]],
            forall|a: int, b: int| 0 <= a < b < out@.len() ==> !T::before(#[trigger] out@[b], #[trigger] out@[a]),
            forall|a: int, b: int|
                0 <= a < b < out@.len() && !T::before(#[trigger] out@[a], #[trigger] out@[b]) ==> p[a] < p[b],
        decreases n - i,
    {
        let x = input.remove(0);
        proof {
            assert(x == s[i as int]);
            assert(input@ =~= s.skip(i + 1));
        }
        let mut pos: usize = 0;
        while pos < out.len() && !x.is_before(&out[pos])
            invariant
                pos <= out@.len(),
                forall|q: int| 0 <= q < pos ==> !T::before(x, #[trigger] out@[q]),
            decreases out@.len() - pos,
        {
            pos = pos + 1;
        }
        let ghost before_out = out@;
        let ghost before_p = p;
        out.insert(pos, x);
        proof {
            p = p.insert(pos as int, i as int);
            lemma_insert_sorted::<T>(before_out, before_p, s, x, pos as int, i as int);
        }
        i = i + 1;
    }
    proof {
        assert(stable_sort_witness(out@, s, p));
    }
    *v = out;
}

proof fn lemma_insert_sorted<T: SortOrder>(o: Seq<T>, p: Seq<int>, s: Seq<T>, x: T, pos: int, i: int)
    requires
        0 <= pos <= o.len(),
        o.len() == i,
        p.len() == i,
        0 <= i < s.len(),
        x == s[i],
        distinct_nodes(p, i),
        forall|k: int| 0 <= k < o.len() ==> #[trigger] o[k] == s[p[k]],
        forall|a: int, b: int| 0 <= a < b < o.len() ==> !T::before(#[trigger] o[b], #[trigger] o[a]),
        forall|a: int, b: int|
            0 <= a < b < o.len() && !T::before(#[trigger] o[a], #[trigger] o[b]) ==> p[a] < p[b],
        forall|q: int| 0 <= q < pos ==> !T::before(x, #[trigger] o[q]),
        pos < o.len() ==> T::before(x, o[pos]),
    ensures
        ({
            let o2 = o.insert(pos, x);
            let p2 = p.insert(pos, i);
            &&& distinct_nodes(p2, i + 1)
            &&& forall|k: int| 0 <= k < o2.len() ==> #[trigger] o2[k] == s[p2[k]]
            &&& forall|a: int, b: int|
                0 <= a < b < o2.len() ==> !T::before(#[trigger] o2[b], #[trigger] o2[a])
            &&& forall|a: int, b: int|
                0 <= a < b < o2.len() && !T::before(#[trigger] o2[a], #[trigger] o2[b]) ==> p2[a] < p2[b]
        }),
{
    let o2 = o.insert(pos, x);
    let p2 = p.insert(pos, i);
    assert(distinct_nodes(p2, i + 1)) by {
        assert forall|a: int, b: int| 0 <= a < b < p2.len() implies p2[a] != p2[b] by {
            if a < pos && b < pos {
            } else if a < pos && b == pos {
            } else if a < pos {
                assert(p2[b] == p[b - 1]);
            } else if a == pos {
                assert(p2[b] == p[b - 1]);
            } else {
                assert(p2[a] == p[a - 1] && p2[b] == p[b - 1]);
            }
        }
        assert forall|k: int| 0 <= k < p2.len() implies 0 <= #[trigger] p2[k] < i + 1 by {
            if k > pos {
                assert(p2[k] == p[k - 1]);
            }
        }
    }
    assert forall|k: int| 0 <= k < o2.len() implies #[trigger] o2[k] == s[p2[k]] by {
        if k > pos {
            assert(o2[k] == o[k - 1] && p2[k] == p[k - 1]);
        }
    }
    assert forall|a: int, b: int| 0 <= a < b < o2.len() implies !T::before(
        #[trigger] o2[b],
        #[trigger] o2[a],
    ) by {
        if a < pos && b < pos {
            assert(o2[a] == o[a] && o2[b] == o[b]);
        } else if a < pos && b == pos {
            assert(o2[a] == o[a]);
            assert(!T::before(x, o[a]));
        } else if a < pos {
            assert(o2[a] == o[a] && o2[b] == o[b - 1]);
        } else if a == pos {
            assert(o2[b] == o[b - 1]);
            assert(T::before(x, o[pos]));
            if b - 1 > pos {
                assert(!T::before(o[b - 1], o[pos]));
            }
            T::lemma_irreflexive(x);
            if T::before(o[b - 1], x) {
                T::lemma_transitive(o[b - 1], x, o[pos]);
                if b - 1 == pos {
                    T::lemma_irreflexive(o[pos]);
                }
            }
        } else {
            assert(o2[a] == o[a - 1] && o2[b] == o[b - 1]);
        }
    }
    assert forall|a: int, b: int|
        0 <= a < b < o2.len() && !T::before(#[trigger] o2[a], #[trigger] o2[b]) implies p2[a]
        < p2[b] by {
        if a < pos && b < pos {
            assert(o2[a] == o[a] && o2[b] == o[b]);
        } else if a < pos && b == pos {
            assert(p2[b] == i);
            assert(p2[a] == p[a]);
        } else if a < pos {
            assert(o2[a] == o[a] && o2[b] == o[b - 1]);
            assert(p2[a] == p[a] && p2[b] == p[b - 1]);
        } else if a == pos {
            assert(o2[b] == o[b - 1]);
            assert(T::before(x, o[pos]));
            if b - 1 > pos {
                assert(!T::before(o[b - 1], o[pos]));
                if !T::before(x, o[b - 1]) {
                    T::lemma_not_before_transitive(x, o[b - 1], o[pos]);
                }
            }
        } else {
            assert(o2[a] == o[a - 1] && o2[b] == o[b - 1]);
            assert(p2[a] == p[a - 1] && p2[b] == p[b - 1]);
        }
    }
}

} // verus!
