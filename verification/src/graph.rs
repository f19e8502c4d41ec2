//! Dependency ordering: Kahn's algorithm over a graph given by each node's
//! predecessors.

use vstd::prelude::*;
use vstd::set_lib::{lemma_int_range, lemma_len_subset, lemma_subset_equality, set_int_range};

verus! {

/// Integer view of a list of node indices.
pub open spec fn nodes_view(v: Seq<usize>) -> Seq<int> {
    v.map_values(|x: usize| x as int)
}

/// Integer view of the predecessor lists.
pub open spec fn preds_view(p: Seq<Vec<usize>>) -> Seq<Seq<int>> {
    p.map_values(|v: Vec<usize>| nodes_view(v@))
}

/// `n` nodes; every predecessor is another node.
pub open spec fn edges_ok(preds: Seq<Seq<int>>, n: int) -> bool {
    &&& preds.len() == n
    &&& forall|v: int, t: int|
        0 <= v < n && 0 <= t < preds[v].len() ==> 0 <= #[trigger] preds[v][t] < n && preds[v][t]
            != v
}

/// Distinct nodes, each in `[0, n)`.
pub open spec fn distinct_nodes(s: Seq<int>, n: int) -> bool {
    &&& s.no_duplicates()
    &&& forall|i: int| 0 <= i < s.len() ==> 0 <= #[trigger] s[i] < n
}

/// Every node of `s` comes after all its predecessors.
pub open spec fn respects(s: Seq<int>, preds: Seq<Seq<int>>) -> bool {
    forall|p: int, t: int|
        0 <= p < s.len() && 0 <= t < preds[s[p]].len() ==> s.take(p).contains(
            #[trigger] preds[s[p]][t],
        )
}

/// `order` lists every node once, after all its predecessors.
pub open spec fn is_topological(order: Seq<int>, preds: Seq<Seq<int>>, n: int) -> bool {
    &&& order.len() == n
    &&& distinct_nodes(order, n)
    &&& respects(order, preds)
}

pub open spec fn has_topological_order(preds: Seq<Seq<int>>, n: int) -> bool {
    exists|order: Seq<int>| is_topological(order, preds, n)
}

/// How many times `x` occurs in `s`.
pub open spec fn count_in(s: Seq<int>, x: int) -> nat
    decreases s.len(),
{
    if s.len() == 0 {
        0
    } else {
        count_in(s.drop_last(), x) + if s.last() == x {
            1nat
        } else {
            0nat
        }
    }
}

/// How many entries of `s` are not in `done`.
pub open spec fn remaining(s: Seq<int>, done: Seq<int>) -> nat
    decreases s.len(),
{
    if s.len() == 0 {
        0
    } else {
        remaining(s.drop_last(), done) + if done.contains(s.last()) {
            0nat
        } else {
            1nat
        }
    }
}

pub proof fn lemma_remaining_push(s: Seq<int>, done: Seq<int>, u: int)
    requires
        !done.contains(u),
    ensures
        remaining(s, done.push(u)) + count_in(s, u) == remaining(s, done),
    decreases s.len(),
{
    if s.len() > 0 {
        lemma_remaining_push(s.drop_last(), done, u);
        assert(done.push(u).contains(s.last()) == (done.contains(s.last()) || s.last() == u)) by {
            if s.last() == u {
                assert(done.push(u)[done.len() as int] == u);
            }
            if done.push(u).contains(s.last()) && s.last() != u {
                let k = choose|k: int| 0 <= k < done.push(u).len() && done.push(u)[k] == s.last();
                assert(done[k] == s.last());
            }
            if done.contains(s.last()) {
                let k = choose|k: int| 0 <= k < done.len() && done[k] == s.last();
                assert(done.push(u)[k] == s.last());
            }
        }
    }
}

pub proof fn lemma_remaining_zero(s: Seq<int>, done: Seq<int>)
    ensures
        remaining(s, done) == 0 <==> forall|t: int| 0 <= t < s.len() ==> done.contains(#[trigger] s[t]),
    decreases s.len(),
{
    if s.len() > 0 {
        lemma_remaining_zero(s.drop_last(), done);
        if remaining(s, done) == 0 {
            assert forall|t: int| 0 <= t < s.len() implies done.contains(#[trigger] s[t]) by {
                if t < s.len() - 1 {
                    assert(s.drop_last()[t] == s[t]);
                }
            }
        }
        if forall|t: int| 0 <= t < s.len() ==> done.contains(#[trigger] s[t]) {
            assert forall|t: int| 0 <= t < s.drop_last().len() implies done.contains(
                #[trigger] s.drop_last()[t],
            ) by {
                assert(s.drop_last()[t] == s[t]);
            }
            assert(done.contains(s[s.len() - 1]));
        }
    }
}

pub proof fn lemma_distinct_len(s: Seq<int>, n: int)
    requires
        0 <= n,
        distinct_nodes(s, n),
    ensures
        s.len() <= n,
        s.len() == n ==> forall|v: int| 0 <= v < n ==> s.contains(v),
        (forall|v: int| 0 <= v < n ==> s.contains(v)) ==> s.len() >= n,
{
    s.unique_seq_to_set();
    lemma_int_range(0, n);
    assert(s.to_set().subset_of(set_int_range(0, n))) by {
        assert forall|x: int| s.to_set().contains(x) implies set_int_range(0, n).contains(x) by {
            let k = choose|k: int| 0 <= k < s.len() && s[k] == x;
        }
    }
    lemma_len_subset(s.to_set(), set_int_range(0, n));
    if s.len() == n {
        lemma_subset_equality(s.to_set(), set_int_range(0, n));
        assert forall|v: int| 0 <= v < n implies s.contains(v) by {
            assert(set_int_range(0, n).contains(v));
            assert(s.to_set().contains(v));
        }
    }
    if forall|v: int| 0 <= v < n ==> s.contains(v) {
        assert(set_int_range(0, n).subset_of(s.to_set()));
        lemma_len_subset(set_int_range(0, n), s.to_set());
    }
}

/// If some node is left out of `q` and every left-out node has a left-out
/// predecessor, the left-out nodes contain a cycle and no order exists.
pub proof fn lemma_no_order(preds: Seq<Seq<int>>, n: int, q: Seq<int>, v0: int)
    requires
        edges_ok(preds, n),
        0 <= v0 < n,
        !q.contains(v0),
        forall|v: int|
            0 <= v < n && !q.contains(v) ==> exists|t: int|
                0 <= t < preds[v].len() && !q.contains(#[trigger] preds[v][t]),
    ensures
        !has_topological_order(preds, n),
{
    if has_topological_order(preds, n) {
        let o = choose|order: Seq<int>| is_topological(order, preds, n);
        lemma_prefix_in(preds, n, q, o, n);
        lemma_distinct_len(o, n);
        assert(o.contains(v0));
        let p = choose|p: int| 0 <= p < o.len() && o[p] == v0;
        assert(q.contains(o[p]));
    }
}

proof fn lemma_prefix_in(preds: Seq<Seq<int>>, n: int, q: Seq<int>, o: Seq<int>, k: int)
    requires
        edges_ok(preds, n),
        is_topological(o, preds, n),
        0 <= k <= n,
        forall|v: int|
            0 <= v < n && !q.contains(v) ==> exists|t: int|
                0 <= t < preds[v].len() && !q.contains(#[trigger] preds[v][t]),
    ensures
        forall|p: int| 0 <= p < k ==> q.contains(#[trigger] o[p]),
    decreases k,
{
    if k > 0 {
        lemma_prefix_in(preds, n, q, o, k - 1);
        let v = o[k - 1];
        if !q.contains(v) {
            let t = choose|t: int| 0 <= t < preds[v].len() && !q.contains(#[trigger] preds[v][t]);
            let d = preds[v][t];
            assert(o.take(k - 1).contains(d));
            let ok = o.take(k - 1);
            let p = choose|p: int| 0 <= p < ok.len() && #[trigger] ok[p] == d;
            assert(o[p] == d);
            assert(q.contains(o[p]));
        }
    }
}


/// How many times `x` occurs in `s`.
fn count_occurrences(s: &Vec<usize>, x: usize) -> (c: usize)
    ensures
        c == count_in(nodes_view(s@), x as int),
{
    let ghost sv = nodes_view(s@);
    let mut c: usize = 0;
    let mut k: usize = 0;
    while k < s.len()
        invariant
            k <= s@.len(),
            sv == nodes_view(s@),
            c == count_in(sv.take(k as int), x as int),
            c <= k,
        decreases s@.len() - k,
    {
        proof {
            assert(sv.take(k + 1).drop_last() =~= sv.take(k as int));
            assert(sv.take(k + 1).last() == s@[k as int] as int);
        }
        if s[k] == x {
            c = c + 1;
        }
        k = k + 1;
    }
    proof {
        assert(sv.take(s@.len() as int) =~= sv);
    }
    c
}

proof fn lemma_take_contains(s: Seq<int>, i: int, j: int, x: int)
    requires
        0 <= i <= j <= s.len(),
        s.take(i).contains(x),
    ensures
        s.take(j).contains(x),
{
    let k = choose|k: int| 0 <= k < s.take(i).len() && s.take(i)[k] == x;
    assert(s.take(j)[k] == x);
}

/// Position of `x` in `s` (its first), `-1` when absent.
pub open spec fn pos_in(s: Seq<int>, x: int) -> int
    decreases s.len(),
{
    if s.len() == 0 {
        -1
    } else if pos_in(s.drop_last(), x) >= 0 {
        pos_in(s.drop_last(), x)
    } else if s.last() == x {
        s.len() - 1
    } else {
        -1
    }
}

/// The latest position in `s` of an entry of `ps` (`-1` for none).
pub open spec fn last_pos(s: Seq<int>, ps: Seq<int>) -> int
    decreases ps.len(),
{
    if ps.len() == 0 {
        -1
    } else {
        let a = last_pos(s, ps.drop_last());
        let b = pos_in(s, ps.last());
        if a < b {
            b
        } else {
            a
        }
    }
}

/// In a queue `s`, node `a` joins before node `b`: its last predecessor
/// leaves earlier, or the same node is the last predecessor of both and
/// `a` has the smaller index.
pub open spec fn queue_before(s: Seq<int>, preds: Seq<Seq<int>>, a: int, b: int) -> bool {
    let la = last_pos(s, preds[a]);
    let lb = last_pos(s, preds[b]);
    la < lb || (la == lb && a < b)
}

/// The nodes of `s` that have predecessors come in queue order.
pub open spec fn breadth_first(s: Seq<int>, preds: Seq<Seq<int>>) -> bool {
    forall|a: int, b: int|
        0 <= a < b < s.len() && preds[s[a]].len() > 0 && preds[s[b]].len() > 0 ==> queue_before(
            s,
            preds,
            #[trigger] s[a],
            #[trigger] s[b],
        )
}

pub proof fn lemma_pos_in(s: Seq<int>, x: int)
    ensures
        pos_in(s, x) >= 0 <==> s.contains(x),
        pos_in(s, x) >= 0 ==> pos_in(s, x) < s.len() && s[pos_in(s, x)] == x,
        pos_in(s, x) >= 0 ==> forall|k: int| 0 <= k < pos_in(s, x) ==> s[k] != x,
    decreases s.len(),
{
    if s.len() > 0 {
        let d = s.drop_last();
        lemma_pos_in(d, x);
        if s.contains(x) && !d.contains(x) {
            let k = choose|k: int| 0 <= k < s.len() && s[k] == x;
            if k < s.len() - 1 {
                assert(d[k] == x);
            }
            assert forall|m: int| 0 <= m < s.len() - 1 implies s[m] != x by {
                assert(d[m] == s[m]);
            }
        }
        if d.contains(x) {
            let k = choose|k: int| 0 <= k < d.len() && d[k] == x;
            assert(s[k] == x);
            assert forall|m: int| 0 <= m < pos_in(d, x) implies s[m] != x by {
                assert(d[m] == s[m]);
            }
        }
    }
}

proof fn lemma_pos_distinct(s: Seq<int>, k: int)
    requires
        s.no_duplicates(),
        0 <= k < s.len(),
    ensures
        pos_in(s, s[k]) == k,
{
    lemma_pos_in(s, s[k]);
    assert(s.contains(s[k]));
}

proof fn lemma_pos_push(s: Seq<int>, y: int, x: int)
    ensures
        s.contains(x) ==> pos_in(s.push(y), x) == pos_in(s, x),
        !s.contains(y) ==> pos_in(s.push(y), y) == s.len(),
{
    assert(s.push(y).drop_last() =~= s);
    lemma_pos_in(s, x);
    lemma_pos_in(s, y);
}

proof fn lemma_last_pos_push(s: Seq<int>, y: int, ps: Seq<int>)
    requires
        forall|t: int| 0 <= t < ps.len() ==> s.contains(#[trigger] ps[t]),
    ensures
        last_pos(s.push(y), ps) == last_pos(s, ps),
    decreases ps.len(),
{
    if ps.len() > 0 {
        assert forall|t: int| 0 <= t < ps.drop_last().len() implies s.contains(
            #[trigger] ps.drop_last()[t],
        ) by {
            assert(ps.drop_last()[t] == ps[t]);
        }
        lemma_last_pos_push(s, y, ps.drop_last());
        assert(s.contains(ps[ps.len() - 1]));
        lemma_pos_push(s, y, ps.last());
    }
}

/// With every entry of `ps` among the first `h` of the distinct `s`, and one
/// of them at position `h - 1`, the latest is at `h - 1`.
proof fn lemma_last_pos_at(s: Seq<int>, ps: Seq<int>, h: int)
    requires
        s.no_duplicates(),
        0 < h <= s.len(),
        forall|t: int| 0 <= t < ps.len() ==> s.take(h).contains(#[trigger] ps[t]),
    ensures
        last_pos(s, ps) < h,
        ps.contains(s[h - 1]) ==> last_pos(s, ps) == h - 1,
    decreases ps.len(),
{
    if ps.len() > 0 {
        let d = ps.drop_last();
        assert forall|t: int| 0 <= t < d.len() implies s.take(h).contains(#[trigger] d[t]) by {
            assert(d[t] == ps[t]);
        }
        lemma_last_pos_at(s, d, h);
        let x = ps.last();
        assert(s.take(h).contains(x));
        let k = choose|k: int| 0 <= k < s.take(h).len() && s.take(h)[k] == x;
        assert(s[k] == x);
        lemma_pos_distinct(s, k);
        if ps.contains(s[h - 1]) {
            if x != s[h - 1] {
                let j = choose|j: int| 0 <= j < ps.len() && ps[j] == s[h - 1];
                assert(d[j] == s[h - 1]);
                assert(d.contains(s[h - 1]));
            } else {
                lemma_pos_distinct(s, h - 1);
                lemma_last_pos_nonneg(s, d);
            }
        }
    }
}

proof fn lemma_last_pos_nonneg(s: Seq<int>, ps: Seq<int>)
    ensures
        last_pos(s, ps) >= -1,
    decreases ps.len(),
{
    if ps.len() > 0 {
        lemma_last_pos_nonneg(s, ps.drop_last());
    }
}

proof fn lemma_count_contains(s: Seq<int>, x: int)
    requires
        count_in(s, x) > 0,
    ensures
        s.contains(x),
    decreases s.len(),
{
    if s.last() == x {
        assert(s[s.len() - 1] == x);
    } else {
        lemma_count_contains(s.drop_last(), x);
        let k = choose|k: int| 0 <= k < s.drop_last().len() && s.drop_last()[k] == x;
        assert(s[k] == x);
    }
}

/// Appending `v`, whose last predecessor is the node that just left the
/// queue at `head - 1`, keeps the queue in queue order.
proof fn lemma_queue_push(qb: Seq<int>, pv: Seq<Seq<int>>, v: int, head: int, rl: int, q0len: int)
    requires
        qb.no_duplicates(),
        !qb.contains(v),
        0 < head <= q0len <= qb.len(),
        0 <= rl <= q0len,
        respects(qb, pv),
        forall|t: int| 0 <= t < pv[v].len() ==> qb.take(head).contains(#[trigger] pv[v][t]),
        pv[v].contains(qb[head - 1]),
        forall|a: int, b: int|
            rl <= a < b < qb.len() ==> queue_before(qb, pv, #[trigger] qb[a], #[trigger] qb[b]),
        forall|a: int| rl <= a < q0len ==> #[trigger] last_pos(qb, pv[qb[a]]) < head - 1,
        forall|a: int|
            q0len <= a < qb.len() ==> #[trigger] last_pos(qb, pv[qb[a]]) == head - 1 && qb[a] < v,
    ensures
        forall|a: int, b: int|
            rl <= a < b < qb.push(v).len() ==> queue_before(
                qb.push(v),
                pv,
                #[trigger] qb.push(v)[a],
                #[trigger] qb.push(v)[b],
            ),
        forall|a: int| rl <= a < q0len ==> #[trigger] last_pos(qb.push(v), pv[qb.push(v)[a]]) < head - 1,
        forall|a: int|
            q0len <= a < qb.push(v).len() ==> #[trigger] last_pos(qb.push(v), pv[qb.push(v)[a]]) == head
                - 1 && qb.push(v)[a] < v + 1,
{
    let qa = qb.push(v);
    assert forall|a: int| 0 <= a < qb.len() implies #[trigger] last_pos(qa, pv[qb[a]]) == last_pos(
        qb,
        pv[qb[a]],
    ) by {
        assert forall|t: int| 0 <= t < pv[qb[a]].len() implies qb.contains(#[trigger] pv[qb[a]][t]) by {
            assert(qb.take(a).contains(pv[qb[a]][t]));
            lemma_take_contains(qb, a, qb.len() as int, pv[qb[a]][t]);
            assert(qb.take(qb.len() as int) =~= qb);
        }
        lemma_last_pos_push(qb, v, pv[qb[a]]);
    }
    lemma_last_pos_at(qb, pv[v], head);
    assert forall|t: int| 0 <= t < pv[v].len() implies qb.contains(#[trigger] pv[v][t]) by {
        lemma_take_contains(qb, head, qb.len() as int, pv[v][t]);
        assert(qb.take(qb.len() as int) =~= qb);
    }
    lemma_last_pos_push(qb, v, pv[v]);
    assert(last_pos(qa, pv[v]) == head - 1);
    assert forall|a: int| 0 <= a < qb.len() implies #[trigger] qa[a] == qb[a] by {}
    assert(qa[qb.len() as int] == v);
    assert forall|a: int, b: int| rl <= a < b < qa.len() implies queue_before(
        qa,
        pv,
        #[trigger] qa[a],
        #[trigger] qa[b],
    ) by {
        assert(qa[a] == qb[a]);
        assert(last_pos(qa, pv[qb[a]]) == last_pos(qb, pv[qb[a]]));
        if b < qb.len() {
            assert(qa[b] == qb[b]);
            assert(last_pos(qa, pv[qb[b]]) == last_pos(qb, pv[qb[b]]));
            assert(queue_before(qb, pv, qb[a], qb[b]));
        } else {
            assert(qa[b] == v);
            if a < q0len {
                assert(last_pos(qb, pv[qb[a]]) < head - 1);
            } else {
                assert(last_pos(qb, pv[qb[a]]) == head - 1 && qb[a] < v);
            }
        }
    }
    assert forall|a: int| rl <= a < q0len implies #[trigger] last_pos(qa, pv[qa[a]]) < head - 1 by {
        assert(qa[a] == qb[a]);
        assert(last_pos(qa, pv[qb[a]]) == last_pos(qb, pv[qb[a]]));
        assert(last_pos(qb, pv[qb[a]]) < head - 1);
    }
    assert forall|a: int| q0len <= a < qa.len() implies #[trigger] last_pos(qa, pv[qa[a]]) == head - 1
        && qa[a] < v + 1 by {
        if a < qb.len() {
            assert(qa[a] == qb[a]);
            assert(last_pos(qa, pv[qb[a]]) == last_pos(qb, pv[qb[a]]));
            assert(last_pos(qb, pv[qb[a]]) == head - 1 && qb[a] < v);
        } else {
            assert(qa[a] == v);
        }
    }
}

/// Kahn's algorithm: nodes leave a FIFO queue that starts with `roots` (the
/// nodes without predecessors, in the order given); a node joins the queue
/// once all its predecessors have left it. `None` when some nodes never
/// join, which happens exactly when the graph has a cycle.
pub fn kahn_order(preds: &Vec<Vec<usize>>, roots: Vec<usize>) -> (r: Option<Vec<usize>>)
    requires
        edges_ok(preds_view(preds@), preds@.len() as int),
        distinct_nodes(nodes_view(roots@), preds@.len() as int),
        forall|v: int|
            0 <= v < preds@.len() ==> (nodes_view(roots@).contains(v) <==> preds@[v]@.len() == 0),
    ensures
        r is Some <==> has_topological_order(preds_view(preds@), preds@.len() as int),
        r matches Some(o) ==> is_topological(
            nodes_view(o@),
            preds_view(preds@),
            preds@.len() as int,
        ) && roots@.len() <= o@.len() && nodes_view(o@).take(roots@.len() as int) == nodes_view(
            roots@,
        ) && breadth_first(nodes_view(o@), preds_view(preds@)),
{
    let n = preds.len();
    let ghost pv = preds_view(preds@);
    let ghost rv = nodes_view(roots@);
    let mut indeg: Vec<usize> = Vec::new();
    let mut i: usize = 0;
    while i < n
        invariant
            n == preds@.len(),
            pv == preds_view(preds@),
            i <= n,
            indeg@.len() == i,
            forall|v: int| 0 <= v < i ==> indeg@[v] == pv[v].len(),
        decreases n - i,
    {
        indeg.push(preds[i].len());
        i = i + 1;
    }
    let mut q = roots;
    let mut head: usize = 0;
    proof {
        assert(nodes_view(q@).take(0) =~= seq![]);
        assert forall|p: int, t: int|
            0 <= p < nodes_view(q@).len() && 0 <= t < pv[nodes_view(q@)[p]].len() implies nodes_view(
            q@,
        ).take(p).contains(#[trigger] pv[nodes_view(q@)[p]][t]) by {
            let x = nodes_view(q@)[p];
            assert(rv.contains(x));
            assert(pv[x] == nodes_view(preds@[x]@));
        }
        assert forall|v: int| 0 <= v < n implies indeg@[v] == remaining(
            pv[v],
            nodes_view(q@).take(0),
        ) by {
            lemma_remaining_zero(pv[v], nodes_view(q@).take(0));
            if pv[v].len() > 0 {
                assert(!nodes_view(q@).take(0).contains(pv[v][0]));
            }
            lemma_remaining_all(pv[v]);
        }
        assert(nodes_view(q@).take(roots@.len() as int) =~= rv);
    }
    while head < q.len()
        invariant
            n == preds@.len(),
            pv == preds_view(preds@),
            edges_ok(pv, n as int),
            head <= q@.len(),
            distinct_nodes(nodes_view(q@), n as int),
            indeg@.len() == n,
            forall|v: int|
                0 <= v < n ==> #[trigger] indeg@[v] == remaining(pv[v], nodes_view(q@).take(head as int)),
            forall|v: int|
                0 <= v < n ==> (nodes_view(q@).contains(v) <==> remaining(
                    pv[v],
                    nodes_view(q@).take(head as int),
                ) == 0),
            respects(nodes_view(q@), pv),
            roots@.len() <= q@.len(),
            nodes_view(q@).take(roots@.len() as int) == rv,
            forall|a: int, b: int|
                roots@.len() <= a < b < nodes_view(q@).len() ==> queue_before(
                    nodes_view(q@),
                    pv,
                    #[trigger] nodes_view(q@)[a],
                    #[trigger] nodes_view(q@)[b],
                ),
            forall|a: int|
                roots@.len() <= a < nodes_view(q@).len() ==> #[trigger] last_pos(
                    nodes_view(q@),
                    pv[nodes_view(q@)[a]],
                ) < head,
        decreases n - head,
    {
        proof {
            lemma_distinct_len(nodes_view(q@), n as int);
        }
        let u = q[head];
        let ghost done0 = nodes_view(q@).take(head as int);
        let ghost q0 = nodes_view(q@);
        head = head + 1;
        let ghost done1 = nodes_view(q@).take(head as int);
        proof {
            assert(done1 =~= done0.push(u as int));
            assert(!done0.contains(u as int)) by {
                if done0.contains(u as int) {
                    let k = choose|k: int| 0 <= k < done0.len() && done0[k] == u as int;
                    assert(q0[k] == q0[head - 1]);
                }
            }
        }
        let mut v: usize = 0;
        while v < n
            invariant
                n == preds@.len(),
                pv == preds_view(preds@),
                edges_ok(pv, n as int),
                0 < head <= q0.len() <= q@.len(),
                u as int == q0[head - 1],
                !done0.contains(u as int),
                done1 == done0.push(u as int),
                done1 == nodes_view(q@).take(head as int),
                q0 == nodes_view(q@).take(q0.len() as int),
                distinct_nodes(nodes_view(q@), n as int),
                v <= n,
                indeg@.len() == n,
                forall|w: int|
                    v <= w < n ==> #[trigger] indeg@[w] == remaining(pv[w], done0),
                forall|w: int| 0 <= w < v ==> #[trigger] indeg@[w] == remaining(pv[w], done1),
                forall|w: int|
                    v <= w < n ==> (nodes_view(q@).contains(w) <==> remaining(pv[w], done0) == 0),
                forall|w: int|
                    0 <= w < v ==> (nodes_view(q@).contains(w) <==> remaining(pv[w], done1) == 0),
                respects(nodes_view(q@), pv),
                roots@.len() <= q@.len(),
                nodes_view(q@).take(roots@.len() as int) == rv,
                roots@.len() <= q0.len(),
                forall|a: int, b: int|
                    roots@.len() <= a < b < nodes_view(q@).len() ==> queue_before(
                        nodes_view(q@),
                        pv,
                        #[trigger] nodes_view(q@)[a],
                        #[trigger] nodes_view(q@)[b],
                    ),
                forall|a: int|
                    roots@.len() <= a < q0.len() ==> #[trigger] last_pos(
                        nodes_view(q@),
                        pv[nodes_view(q@)[a]],
                    ) < head - 1,
                forall|a: int|
                    q0.len() <= a < nodes_view(q@).len() ==> #[trigger] last_pos(
                        nodes_view(q@),
                        pv[nodes_view(q@)[a]],
                    ) == head - 1 && nodes_view(q@)[a] < v,
            decreases n - v,
        {
            let c = count_occurrences(&preds[v], u);
            proof {
                assert(pv[v as int] == nodes_view(preds@[v as int]@));
                lemma_remaining_push(pv[v as int], done0, u as int);
            }
            if c > 0 {
                let d = indeg[v] - c;
                indeg.set(v, d);
                if d == 0 {
                    let ghost qb = nodes_view(q@);
                    proof {
                        lemma_remaining_zero(pv[v as int], done1);
                    }
                    q.push(v);
                    proof {
                        let qa = nodes_view(q@);
                        assert(qa =~= qb.push(v as int));
                        assert(!qb.contains(v as int));
                        assert forall|w: int| 0 <= w < n && w != v implies (qa.contains(w)
                            <==> qb.contains(w)) by {
                            if qa.contains(w) {
                                let k = choose|k: int| 0 <= k < qa.len() && qa[k] == w;
                                assert(qb[k] == w);
                            }
                            if qb.contains(w) {
                                let k = choose|k: int| 0 <= k < qb.len() && qb[k] == w;
                                assert(qa[k] == w);
                            }
                        }
                        assert(qa[qb.len() as int] == v as int);
                        assert(qa.no_duplicates()) by {
                            assert forall|a: int, b: int|
                                0 <= a < qa.len() && 0 <= b < qa.len() && a != b implies qa[a]
                                != qa[b] by {
                                if a < qb.len() && b < qb.len() {
                                    assert(qa[a] == qb[a] && qa[b] == qb[b]);
                                } else if a < qb.len() {
                                    assert(qa[a] == qb[a]);
                                } else if b < qb.len() {
                                    assert(qa[b] == qb[b]);
                                }
                            }
                        }
                        assert(qa.take(head as int) =~= qb.take(head as int));
                        lemma_count_contains(pv[v as int], u as int);
                        assert(qb[head - 1] == q0[head - 1]);
                        assert forall|t: int| 0 <= t < pv[v as int].len() implies qb.take(
                            head as int,
                        ).contains(#[trigger] pv[v as int][t]) by {
                            assert(done1.contains(pv[v as int][t]));
                        }
                        lemma_queue_push(
                            qb,
                            pv,
                            v as int,
                            head as int,
                            roots@.len() as int,
                            q0.len() as int,
                        );
                        assert(qa.take(q0.len() as int) =~= qb.take(q0.len() as int));
                        assert(qa.take(roots@.len() as int) =~= qb.take(roots@.len() as int));
                        assert forall|p: int, t: int|
                            0 <= p < qa.len() && 0 <= t < pv[qa[p]].len() implies qa.take(
                                p,
                            ).contains(#[trigger] pv[qa[p]][t]) by {
                            if p < qb.len() {
                                assert(qa[p] == qb[p]);
                                assert(qb.take(p).contains(pv[qb[p]][t]));
                                assert(qa.take(p) =~= qb.take(p));
                            } else {
                                assert(done1.contains(pv[v as int][t]));
                                lemma_take_contains(qa, head as int, p, pv[v as int][t]);
                            }
                        }
                    }
                }
            }
            v = v + 1;
        }
        proof {
            let qv = nodes_view(q@);
            assert forall|a: int| roots@.len() <= a < qv.len() implies #[trigger] last_pos(
                qv,
                pv[qv[a]],
            ) < head by {
                if a < q0.len() {
                    assert(last_pos(qv, pv[qv[a]]) < head - 1);
                } else {
                    assert(last_pos(qv, pv[qv[a]]) == head - 1);
                }
            }
        }
    }
    proof {
        lemma_distinct_len(nodes_view(q@), n as int);
        assert(nodes_view(q@).take(head as int) =~= nodes_view(q@));
    }
    if q.len() == n {
        proof {
            assert(is_topological(nodes_view(q@), pv, n as int));
            let qv = nodes_view(q@);
            assert forall|a: int, b: int|
                0 <= a < b < qv.len() && pv[qv[a]].len() > 0 && pv[qv[b]].len() > 0 implies queue_before(
                qv,
                pv,
                #[trigger] qv[a],
                #[trigger] qv[b],
            ) by {
                if a < roots@.len() {
                    assert(qv.take(roots@.len() as int)[a] == qv[a]);
                    assert(rv.contains(qv[a]));
                    assert(pv[qv[a]] == nodes_view(preds@[qv[a]]@));
                }
                if b < roots@.len() {
                    assert(qv.take(roots@.len() as int)[b] == qv[b]);
                    assert(rv.contains(qv[b]));
                    assert(pv[qv[b]] == nodes_view(preds@[qv[b]]@));
                }
            }
        }
        Some(q)
    } else {
        proof {
            let qv = nodes_view(q@);
            let v0 = choose|v: int| 0 <= v < n && !qv.contains(v);
            assert forall|v: int| 0 <= v < n && !qv.contains(v) implies exists|t: int|
                0 <= t < pv[v].len() && !qv.contains(#[trigger] pv[v][t]) by {
                lemma_remaining_zero(pv[v], qv);
            }
            lemma_no_order(pv, n as int, qv, v0);
        }
        None
    }
}

proof fn lemma_remaining_all(s: Seq<int>)
    ensures
        remaining(s, seq![]) == s.len(),
    decreases s.len(),
{
    if s.len() > 0 {
        lemma_remaining_all(s.drop_last());
    }
}

} // verus!
