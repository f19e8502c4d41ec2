//! Directory-backed file catalogs, generic over their item type: filename
//! rules, pagination, and the checks made before a file is published.

use vstd::prelude::*;
use crate::text::push_str;

use crate::text::{
    chars_of, contains_text, ends_with, ends_with_text, has_char, has_sub, lower, lower_chars,
    push_char, trim, trim_bounds, string_of,
};

verus! {

/// Default page size for the HTML UI and JSON API.
pub const DEFAULT_PER_PAGE: u32 = 50;

/// Hard cap so a single response cannot dump an entire multi-thousand feed.
pub const MAX_PER_PAGE: u32 = 500;

/// A plain filename with the expected extension (compared case-blind):
/// not empty, no `/` or `\`, no `..`.
pub open spec fn safe_filename(name: Seq<char>, ext: Seq<char>) -> bool {
    &&& name.len() > 0
    &&& !name.contains('/')
    &&& !name.contains('\\')
    &&& !has_sub(name, seq!['.', '.'])
    &&& ends_with(lower(name), ext)
}

/// Whether `name` is a plain filename with the expected extension — rejects
/// path traversal and separators.
pub fn is_safe_filename(name: &str, ext: &str) -> (r: bool)
    ensures
        r == safe_filename(name@, ext@),
{
    let cs = chars_of(name);
    if cs.len() == 0 {
        return false;
    }
    if has_char(cs.as_slice(), '/') || has_char(cs.as_slice(), '\\') {
        return false;
    }
    let dots = vec!['.', '.'];
    proof {
        assert(dots@ =~= seq!['.', '.']);
    }
    if contains_text(cs.as_slice(), dots.as_slice()) {
        return false;
    }
    let low = lower_chars(name);
    let e = chars_of(ext);
    ends_with_text(low.as_slice(), e.as_slice())
}

/// `Path::join` of a relative component without separators.
pub open spec fn path_join(dir: Seq<char>, name: Seq<char>) -> Seq<char> {
    if dir.len() == 0 || dir.last() == '/' {
        dir + name
    } else {
        dir + seq!['/'] + name
    }
}

/// `dir` joined with `name`.
pub fn join_path(dir: &str, name: &str) -> (r: String)
    ensures
        r@ == path_join(dir@, name@),
{
    let d = chars_of(dir);
    let n = chars_of(name);
    let mut out = string_of(d.as_slice(), 0, d.len());
    proof {
        assert(d@.subrange(0, d@.len() as int) =~= d@);
    }
    if d.len() > 0 && d[d.len() - 1] != '/' {
        push_char(&mut out, '/');
    }
    let ghost before = out@;
    let mut k: usize = 0;
    while k < n.len()
        invariant
            k <= n@.len(),
            n@ == name@,
            out@ == before + n@.take(k as int),
        decreases n@.len() - k,
    {
        push_char(&mut out, n[k]);
        proof {
            assert(n@.take(k + 1) =~= n@.take(k as int).push(n@[k as int]));
        }
        k = k + 1;
    }
    proof {
        assert(n@.take(n@.len() as int) =~= n@);
        assert(out@ =~= path_join(dir@, name@));
    }
    out
}

/// The type-specific half of a file catalog: which filenames it accepts,
/// how entries are searched and ordered, and how an entry is described
/// from its filename alone.
pub trait CatalogSpec {
    /// Catalog entry type (one published file).
    type Item;

    /// Which filenames the catalog accepts.
    spec fn accepts(name: Seq<char>) -> bool;

    /// Whether an entry matches a lowercase search needle.
    spec fn matches_spec(item: Self::Item, needle: Seq<char>) -> bool;

    /// Soft cap for a single published file.
    spec fn max_size() -> u64;

    /// Soft cap for a single published file.
    fn max_bytes() -> (r: u64)
        ensures
            r == Self::max_size(),
    ;

    /// Whether `name` is a plain filename this catalog accepts (no traversal).
    fn is_safe_filename(name: &str) -> (r: bool)
        ensures
            r == Self::accepts(name@),
    ;

    /// Whether `item` matches a lowercase search needle.
    fn matches(item: &Self::Item, needle: &str) -> (r: bool)
        ensures
            r == Self::matches_spec(*item, needle@),
    ;
}

// ---------------------------------------------------------------------------
// Pagination

/// A pagination window over a filtered listing.
#[derive(Debug, Clone)]
pub struct Page<T> {
    /// Items on this page.
    pub items: Vec<T>,
    /// Total items after filtering.
    pub total: usize,
    /// 1-based page number (clamped into range).
    pub page: u32,
    /// Page size used.
    pub per_page: u32,
    /// Total pages (at least 1).
    pub total_pages: u32,
    /// The trimmed filter query.
    pub query: String,
}

impl<T> Page<T> {
    /// Whether a previous page exists.
    pub fn has_prev(&self) -> (r: bool)
        ensures
            r == (self.page > 1),
    {
        self.page > 1
    }

    /// Whether a further page exists.
    pub fn has_next(&self) -> (r: bool)
        ensures
            r == (self.page < self.total_pages),
    {
        self.page < self.total_pages
    }
}

pub open spec fn clamp(x: int, lo: int, hi: int) -> int {
    if x < lo {
        lo
    } else if x > hi {
        hi
    } else {
        x
    }
}

/// Pages needed for `total` items: at least one.
pub open spec fn page_count(total: int, per_page: int) -> int {
    if total == 0 {
        1
    } else {
        (total + per_page - 1) / per_page
    }
}

/// First item index of `page` (1-based).
pub open spec fn page_start(total: int, page: int, per_page: int) -> int {
    let s = (page - 1) * per_page;
    if s < total {
        s
    } else {
        total
    }
}

/// One past the last item index of `page`.
pub open spec fn page_end(total: int, page: int, per_page: int) -> int {
    let e = page_start(total, page, per_page) + per_page;
    if e < total {
        e
    } else {
        total
    }
}

/// The entries of `all` whose flag in `keep` is set, in order.
pub open spec fn kept<T>(all: Seq<T>, keep: Seq<bool>) -> Seq<T>
    decreases all.len(),
{
    if all.len() == 0 || keep.len() != all.len() {
        seq![]
    } else if keep.last() {
        kept(all.drop_last(), keep.drop_last()).push(all.last())
    } else {
        kept(all.drop_last(), keep.drop_last())
    }
}

/// What `paginate` returns for the filter outcome `keep`.
pub open spec fn page_of<T: Clone>(r: Page<T>, all: Seq<T>, keep: Seq<bool>, page: u32, per_page: u32) -> bool {
    let pp = clamp(per_page as int, 1, MAX_PER_PAGE as int);
    let filtered = kept(all, keep);
    let total = filtered.len() as int;
    let tp = page_count(total, pp);
    let p = clamp(page as int, 1, tp);
    let start = page_start(total, p, pp);
    let end = page_end(total, p, pp);
    &&& r.per_page == pp
    &&& r.total == total
    &&& r.total_pages == tp
    &&& r.page == p
    &&& r.items@.len() == end - start
    &&& forall|j: int| 0 <= j < end - start ==> cloned(#[trigger] filtered[start + j], r.items@[j])
}

/// `keep` is a filter outcome `matches` gives for `query`: every entry when
/// the trimmed query is empty, otherwise what `matches` says of each entry
/// and the lowercased trimmed query `needle`.
pub open spec fn kept_by<T, F: Fn(&T, &str) -> bool>(
    keep: Seq<bool>,
    needle: &str,
    all: Seq<T>,
    query: Seq<char>,
    matches: F,
) -> bool {
    &&& keep.len() == all.len()
    &&& needle@ == lower(trim(query))
    &&& forall|i: int|
        0 <= i < all.len() ==> if trim(query).len() == 0 {
            #[trigger] keep[i]
        } else {
            matches.ensures((&all[i], needle), keep[i])
        }
}

/// What [`paginate`] returns: the trimmed query, and page `page` of the
/// entries some filter outcome of `matches` keeps.
pub open spec fn paginated<T: Clone, F: Fn(&T, &str) -> bool>(
    r: Page<T>,
    all: Seq<T>,
    page: u32,
    per_page: u32,
    query: Seq<char>,
    matches: F,
) -> bool {
    &&& r.query@ == trim(query)
    &&& exists|keep: Seq<bool>, needle: &str|
        #[trigger] kept_by(keep, needle, all, query, matches) && page_of(r, all, keep, page, per_page)
}

/// Filter with `matches` and paginate (`page` is 1-based, `per_page` clamped
/// to [`MAX_PER_PAGE`]). Only the requested page is cloned.
///
/// The query is trimmed; when it is empty every entry is kept, otherwise
/// an entry is kept when `matches` says so for the lowercased query.
pub fn paginate<T: Clone, F: Fn(&T, &str) -> bool>(
    all: &[T],
    page: u32,
    per_page: u32,
    query: &str,
    matches: F,
) -> (r: Page<T>)
    requires
        all@.len() <= u32::MAX,
        forall|t: &T, n: &str| #[trigger] matches.requires((t, n)),
    ensures
        paginated(r, all@, page, per_page, query@, matches),
{
    let pp: u32 = if per_page < 1 {
        1
    } else if per_page > MAX_PER_PAGE {
        MAX_PER_PAGE
    } else {
        per_page
    };
    let qc = chars_of(query);
    let (qa, qb) = trim_bounds(qc.as_slice(), 0, qc.len());
    let q = string_of(qc.as_slice(), qa, qb);
    proof {
        assert(trim(query@) == qc@.subrange(qa as int, qb as int));
    }
    let needle_chars = lower_chars(q.as_str());
    let needle = string_of(needle_chars.as_slice(), 0, needle_chars.len());
    proof {
        assert(needle_chars@.subrange(0, needle_chars@.len() as int) =~= needle_chars@);
    }
    let empty_query = qa == qb;
    let nd: &str = needle.as_str();
    let ghost tq = trim(query@);
    let (keep_idx, Ghost(keep)) = select(all, empty_query, nd, &matches, Ghost(tq));
    let ghost filtered = kept(all@, keep);
    let total = keep_idx.len();
    let (tp, pg, start, end) = window(total, page, pp);
    let mut items: Vec<T> = Vec::new();
    let mut j: usize = start;
    while j < end
        invariant
            start <= j <= end <= total,
            total == keep_idx@.len(),
            filtered == kept(all@, keep),
            filtered.len() == total,
            forall|m: int| 0 <= m < keep_idx@.len() ==> #[trigger] keep_idx@[m] < all@.len() && all@[keep_idx@[m] as int] == filtered[m],
            items@.len() == j - start,
            forall|m: int| 0 <= m < j - start ==> cloned(#[trigger] filtered[start + m], items@[m]),
        decreases end - j,
    {
        let k = keep_idx[j];
        let c = all[k].clone();
        proof {
            assert(filtered[j as int] == all@[k as int]);
        }
        items.push(c);
        j = j + 1;
    }
    let r = Page { items, total, page: pg, per_page: pp, total_pages: tp, query: q };
    proof {
        assert(page_of(r, all@, keep, page, per_page));
        assert(kept_by(keep, nd, all@, query@, matches));
    }
    r
}

/// Indices of the entries to keep, and the keep flags.
fn select<T, F: Fn(&T, &str) -> bool>(
    all: &[T],
    empty_query: bool,
    nd: &str,
    matches: &F,
    Ghost(tq): Ghost<Seq<char>>,
) -> (r: (Vec<usize>, Ghost<Seq<bool>>))
    requires
        forall|t: &T, n: &str| #[trigger] matches.requires((t, n)),
        empty_query == (tq.len() == 0),
    ensures
        r.1@.len() == all@.len(),
        r.0@.len() <= all@.len(),
        forall|m: int|
            0 <= m < all@.len() ==> if tq.len() == 0 {
                #[trigger] r.1@[m]
            } else {
                matches.ensures((&all@[m], nd), r.1@[m])
            },
        r.0@.len() == kept(all@, r.1@).len(),
        forall|j: int|
            0 <= j < r.0@.len() ==> #[trigger] r.0@[j] < all@.len() && all@[r.0@[j] as int] == kept(
                all@,
                r.1@,
            )[j],
{
    let mut keep_idx: Vec<usize> = Vec::new();
    let ghost mut keep: Seq<bool> = seq![];
    let mut i: usize = 0;
    while i < all.len()
        invariant
            i <= all@.len(),
            forall|t: &T, n: &str| #[trigger] matches.requires((t, n)),
            empty_query == (tq.len() == 0),
            keep.len() == i,
            keep_idx@.len() <= i,
            forall|m: int|
                0 <= m < i ==> if tq.len() == 0 {
                    #[trigger] keep[m]
                } else {
                    matches.ensures((&all@[m], nd), keep[m])
                },
            keep_idx@.len() == kept(all@.take(i as int), keep).len(),
            forall|j: int|
                0 <= j < keep_idx@.len() ==> #[trigger] keep_idx@[j] < i && all@[keep_idx@[j] as int]
                    == kept(all@.take(i as int), keep)[j],
        decreases all@.len() - i,
    {
        let b = if empty_query {
            true
        } else {
            matches(&all[i], nd)
        };
        let ghost old_keep = keep;
        let ghost old_idx = keep_idx@;
        proof {
            keep = keep.push(b);
            assert(all@.take(i + 1).drop_last() =~= all@.take(i as int));
            assert(keep.drop_last() =~= old_keep);
        }
        if b {
            keep_idx.push(i);
            proof {
                let kk = kept(all@.take(i + 1), keep);
                assert(kk == kept(all@.take(i as int), old_keep).push(all@[i as int]));
                assert forall|j: int| 0 <= j < keep_idx@.len() implies #[trigger] keep_idx@[j] < i + 1
                    && all@[keep_idx@[j] as int] == kk[j] by {
                    if j < old_idx.len() {
                        assert(keep_idx@[j] == old_idx[j]);
                    }
                }
            }
        }
        i = i + 1;
    }
    proof {
        assert(all@.take(all@.len() as int) =~= all@);
    }
    (keep_idx, Ghost(keep))
}

/// Page count, clamped page, and the item window of that page.
fn window(total: usize, page: u32, pp: u32) -> (r: (u32, u32, usize, usize))
    requires
        total <= u32::MAX,
        1 <= pp,
    ensures
        r.0 == page_count(total as int, pp as int),
        r.1 == clamp(page as int, 1, r.0 as int),
        r.2 == page_start(total as int, r.1 as int, pp as int),
        r.3 == page_end(total as int, r.1 as int, pp as int),
        r.2 <= r.3 <= total,
{
    let tp: u32 = if total == 0 {
        1
    } else {
        (((total as u64) + (pp as u64) - 1) / (pp as u64)) as u32
    };
    proof {
        if total > 0 {
            lemma_page_count_bounds(total as int, pp as int);
        }
    }
    let pg: u32 = if page < 1 {
        1
    } else if page > tp {
        tp
    } else {
        page
    };
    proof {
        lemma_page_start_bound(total as int, pg as int, pp as int, tp as int);
    }
    let s64: u64 = ((pg - 1) as u64) * (pp as u64);
    let start: usize = if s64 < total as u64 {
        s64 as usize
    } else {
        total
    };
    let e64: u64 = (start as u64) + (pp as u64);
    let end: usize = if e64 < total as u64 {
        e64 as usize
    } else {
        total
    };
    (tp, pg, start, end)
}

proof fn lemma_page_count_bounds(total: int, pp: int)
    requires
        total > 0,
        pp >= 1,
        total <= u32::MAX,
    ensures
        1 <= (total + pp - 1) / pp <= total,
        ((total + pp - 1) / pp - 1) * pp < total,
{
    assert(1 <= (total + pp - 1) / pp <= total) by (nonlinear_arith)
        requires
            total > 0,
            pp >= 1,
    ;
    assert(((total + pp - 1) / pp - 1) * pp < total) by (nonlinear_arith)
        requires
            total > 0,
            pp >= 1,
    ;
}

proof fn lemma_page_start_bound(total: int, pg: int, pp: int, tp: int)
    requires
        1 <= pg <= tp,
        pp >= 1,
        total == 0 ==> tp == 1,
        total > 0 ==> tp == (total + pp - 1) / pp && (tp - 1) * pp < total,
        0 <= total <= u32::MAX,
    ensures
        0 <= (pg - 1) * pp <= total,
{
    if total == 0 {
        assert((pg - 1) * pp == 0) by (nonlinear_arith)
            requires
                pg == 1,
        ;
    } else {
        assert((pg - 1) * pp <= (tp - 1) * pp) by (nonlinear_arith)
            requires
                1 <= pg <= tp,
                pp >= 1,
        ;
        assert(0 <= (pg - 1) * pp) by (nonlinear_arith)
            requires
                1 <= pg,
                pp >= 1,
        ;
    }
}


/// The filter outcome of a catalog's own `matches` for `query`.
pub open spec fn catalog_keep<S: CatalogSpec>(all: Seq<S::Item>, query: Seq<char>) -> Seq<bool> {
    Seq::new(
        all.len(),
        |i: int| trim(query).len() == 0 || S::matches_spec(all[i], lower(trim(query))),
    )
}

/// Filter + paginate a catalog listing (`page` is 1-based), searching with
/// the catalog's own `matches`.
pub fn page<S: CatalogSpec>(all: &[S::Item], page_number: u32, per_page: u32, query: &str) -> (r: Page<
    S::Item,
>) where S::Item: Clone
    requires
        all@.len() <= u32::MAX,
    ensures
        r.query@ == trim(query@),
        page_of(r, all@, catalog_keep::<S>(all@, query@), page_number, per_page),
{
    let f = |t: &S::Item, n: &str| -> (b: bool)
        ensures
            b == S::matches_spec(*t, n@),
        { S::matches(t, n) };
    let r = paginate(all, page_number, per_page, query, f);
    proof {
        let (keep, needle) = choose|keep: Seq<bool>, needle: &str|
            #[trigger] kept_by(keep, needle, all@, query@, f) && page_of(r, all@, keep, page_number, per_page);
        assert(keep =~= catalog_keep::<S>(all@, query@)) by {
            assert forall|i: int| 0 <= i < all@.len() implies keep[i] == catalog_keep::<S>(
                all@,
                query@,
            )[i] by {
                if trim(query@).len() != 0 {
                    assert(f.ensures((&all@[i], needle), keep[i]));
                }
            }
        }
    }
    r
}

/// Pages `1..=total_pages` cover the filtered entries in order, each exactly
/// once: page 1 starts at the first entry, each page starts where the
/// previous one ends, the last page ends at the last entry, and every page
/// but an empty listing's single page holds at least one entry.
pub proof fn lemma_pages_partition(total: int, per_page: int, p: int)
    requires
        0 <= total,
        1 <= per_page,
        1 <= p <= page_count(total, per_page),
    ensures
        page_start(total, 1, per_page) == 0,
        p < page_count(total, per_page) ==> page_end(total, p, per_page) == page_start(
            total,
            p + 1,
            per_page,
        ),
        page_end(total, page_count(total, per_page), per_page) == total,
        total > 0 ==> page_start(total, p, per_page) < page_end(total, p, per_page),
        page_end(total, p, per_page) - page_start(total, p, per_page) <= per_page,
        p < page_count(total, per_page) ==> page_end(total, p, per_page) - page_start(
            total,
            p,
            per_page,
        ) == per_page,
        p < page_count(total, per_page) <==> p * per_page < total,
{
    let tp = page_count(total, per_page);
    assert((1 - 1) * per_page == 0) by (nonlinear_arith);
    if total > 0 {
        assert((tp - 1) * per_page < total && total <= tp * per_page) by (nonlinear_arith)
            requires
                tp == (total + per_page - 1) / per_page,
                total > 0,
                per_page >= 1,
        ;
        assert((p - 1) * per_page + per_page == p * per_page) by (nonlinear_arith);
        assert((p - 1) * per_page <= (tp - 1) * per_page) by (nonlinear_arith)
            requires
                p <= tp,
                per_page >= 1,
        ;
        assert((tp - 1) * per_page + per_page == tp * per_page) by (nonlinear_arith);
        if p < tp {
            assert(p * per_page <= (tp - 1) * per_page) by (nonlinear_arith)
                requires
                    p <= tp - 1,
                    per_page >= 1,
            ;
        } else {
            assert(p * per_page == tp * per_page);
        }
    } else {
        assert(p == 1);
        assert(1 * per_page == per_page);
    }
}

/// The entries of pages `1..=n`, one page after the other.
pub open spec fn pages_joined<T>(f: Seq<T>, per_page: int, n: int) -> Seq<T>
    decreases n,
{
    if n <= 0 {
        seq![]
    } else {
        pages_joined(f, per_page, n - 1) + f.subrange(
            page_start(f.len() as int, n, per_page),
            page_end(f.len() as int, n, per_page),
        )
    }
}

proof fn lemma_pages_joined_prefix<T>(f: Seq<T>, per_page: int, n: int)
    requires
        1 <= per_page,
        1 <= n <= page_count(f.len() as int, per_page),
    ensures
        pages_joined(f, per_page, n) == f.subrange(0, page_end(f.len() as int, n, per_page)),
    decreases n,
{
    let total = f.len() as int;
    lemma_pages_partition(total, per_page, n);
    if n == 1 {
        assert(pages_joined(f, per_page, 0) == Seq::<T>::empty());
        assert(pages_joined(f, per_page, 1) =~= f.subrange(0, page_end(total, 1, per_page)));
    } else {
        lemma_pages_joined_prefix(f, per_page, n - 1);
        lemma_pages_partition(total, per_page, n - 1);
        assert(page_end(total, n - 1, per_page) == page_start(total, n, per_page));
        if total == 0 {
            assert(page_count(total, per_page) == 1);
        }
        assert(page_start(total, n, per_page) <= page_end(total, n, per_page));
        assert(pages_joined(f, per_page, n) =~= f.subrange(0, page_end(total, n, per_page)));
    }
}

/// Reading every page of a listing, from the first to `total_pages`, gives
/// back the whole filtered listing in order, and every page before the
/// last holds exactly `per_page` entries.
pub proof fn lemma_pages_join<T>(f: Seq<T>, per_page: int)
    requires
        1 <= per_page,
    ensures
        pages_joined(f, per_page, page_count(f.len() as int, per_page)) == f,
        forall|p: int|
            1 <= p < page_count(f.len() as int, per_page) ==> #[trigger] page_end(
                f.len() as int,
                p,
                per_page,
            ) - page_start(f.len() as int, p, per_page) == per_page,
{
    let total = f.len() as int;
    let tp = page_count(total, per_page);
    if total > 0 {
        assert((tp - 1) * per_page < total && total <= tp * per_page) by (nonlinear_arith)
            requires
                tp == (total + per_page - 1) / per_page,
                total > 0,
                per_page >= 1,
        ;
        assert(tp >= 1) by (nonlinear_arith)
            requires
                (tp - 1) * per_page < total,
                total <= tp * per_page,
                per_page >= 1,
                total > 0,
        ;
    }
    lemma_pages_joined_prefix(f, per_page, tp);
    lemma_pages_partition(total, per_page, tp);
    assert(f.subrange(0, total) =~= f);
    assert forall|p: int| 1 <= p < tp implies #[trigger] page_end(total, p, per_page) - page_start(
        total,
        p,
        per_page,
    ) == per_page by {
        lemma_pages_partition(total, per_page, p);
    }
}

/// `matches` answers alike for the same entry and the same needle text.
pub open spec fn pure_matcher<T, F: Fn(&T, &str) -> bool>(matches: F) -> bool {
    forall|t: &T, n1: &str, n2: &str, x: bool, y: bool|
        #![trigger matches.ensures((t, n1), x), matches.ensures((t, n2), y)]
        n1@ == n2@ && matches.ensures((t, n1), x) && matches.ensures((t, n2), y) ==> x == y
}

/// The items of `pages`, one page after the other.
pub open spec fn joined_items<T>(pages: Seq<Page<T>>) -> Seq<T>
    decreases pages.len(),
{
    if pages.len() == 0 {
        seq![]
    } else {
        joined_items(pages.drop_last()) + pages.last().items@
    }
}

proof fn lemma_one_outcome<T, F: Fn(&T, &str) -> bool>(
    all: Seq<T>,
    query: Seq<char>,
    matches: F,
    k1: Seq<bool>,
    n1: &str,
    k2: Seq<bool>,
    n2: &str,
)
    requires
        pure_matcher(matches),
        kept_by(k1, n1, all, query, matches),
        kept_by(k2, n2, all, query, matches),
    ensures
        k1 == k2,
{
    assert forall|i: int| 0 <= i < all.len() implies k1[i] == k2[i] by {
        if trim(query).len() != 0 {
            assert(matches.ensures((&all[i], n1), k1[i]));
            assert(matches.ensures((&all[i], n2), k2[i]));
        } else {
            assert(k1[i] && k2[i]);
        }
    }
    assert(k1 =~= k2);
}

proof fn lemma_joined_prefix<T: Clone>(
    all: Seq<T>,
    keep: Seq<bool>,
    per_page: u32,
    pages: Seq<Page<T>>,
    m: int,
)
    requires
        1 <= m <= pages.len(),
        pages.len() == page_count(kept(all, keep).len() as int, clamp(per_page as int, 1, MAX_PER_PAGE as int)),
        forall|k: int| 0 <= k < pages.len() ==> page_of(#[trigger] pages[k], all, keep, (k + 1) as u32, per_page),
        pages.len() <= u32::MAX,
    ensures
        joined_items(pages.take(m)).len() == page_end(
            kept(all, keep).len() as int,
            m,
            clamp(per_page as int, 1, MAX_PER_PAGE as int),
        ),
        forall|j: int|
            0 <= j < joined_items(pages.take(m)).len() ==> cloned(
                #[trigger] kept(all, keep)[j],
                joined_items(pages.take(m))[j],
            ),
    decreases m,
{
    let f = kept(all, keep);
    let total = f.len() as int;
    let pp = clamp(per_page as int, 1, MAX_PER_PAGE as int);
    let r = pages[m - 1];
    assert(page_of(r, all, keep, m as u32, per_page));
    assert(r.page == m);
    lemma_pages_partition(total, pp, m);
    assert(pages.take(m).drop_last() =~= pages.take(m - 1));
    assert(pages.take(m).last() == r);
    let prev = joined_items(pages.take(m - 1));
    let cur = joined_items(pages.take(m));
    assert(cur == prev + r.items@);
    if m == 1 {
        assert(pages.take(0) =~= Seq::<Page<T>>::empty());
        assert(prev.len() == 0);
        assert forall|j: int| 0 <= j < cur.len() implies cloned(#[trigger] f[j], cur[j]) by {
            assert(cur[j] == r.items@[j]);
            assert(cloned(f[page_start(total, m, pp) + j], r.items@[j]));
        }
    } else {
        lemma_joined_prefix(all, keep, per_page, pages, m - 1);
        lemma_pages_partition(total, pp, m - 1);
        assert(page_end(total, m - 1, pp) == page_start(total, m, pp));
        assert forall|j: int| 0 <= j < cur.len() implies cloned(#[trigger] f[j], cur[j]) by {
            if j < prev.len() {
                assert(cur[j] == prev[j]);
            } else {
                let q = j - prev.len();
                assert(cur[j] == r.items@[q]);
                assert(cloned(f[page_start(total, m, pp) + q], r.items@[q]));
            }
        }
    }
}

/// With a matcher that answers alike for the same entry and needle text,
/// calling `paginate` for pages `1..=total_pages` gives every entry the
/// filter keeps, in order, one page after the other; every page but the
/// last holds exactly the clamped `per_page` entries.
pub proof fn lemma_pages_across_calls<T: Clone, F: Fn(&T, &str) -> bool>(
    all: Seq<T>,
    per_page: u32,
    query: Seq<char>,
    matches: F,
    pages: Seq<Page<T>>,
)
    requires
        pure_matcher(matches),
        pages.len() >= 1,
        pages.len() == pages[0].total_pages,
        forall|k: int|
            0 <= k < pages.len() ==> paginated(
                #[trigger] pages[k],
                all,
                (k + 1) as u32,
                per_page,
                query,
                matches,
            ),
    ensures
        exists|keep: Seq<bool>, needle: &str|
            {
                &&& #[trigger] kept_by(keep, needle, all, query, matches)
                &&& joined_items(pages).len() == kept(all, keep).len()
                &&& forall|j: int|
                    0 <= j < kept(all, keep).len() ==> cloned(
                        #[trigger] kept(all, keep)[j],
                        joined_items(pages)[j],
                    )
            },
        forall|k: int|
            0 <= k < pages.len() - 1 ==> (#[trigger] pages[k]).items@.len() == clamp(
                per_page as int,
                1,
                MAX_PER_PAGE as int,
            ),
{
    assert(paginated(pages[0], all, 1u32, per_page, query, matches));
    let (keep0, needle0) = choose|keep: Seq<bool>, needle: &str|
        #[trigger] kept_by(keep, needle, all, query, matches) && page_of(pages[0], all, keep, 1u32, per_page);
    let f = kept(all, keep0);
    let total = f.len() as int;
    let pp = clamp(per_page as int, 1, MAX_PER_PAGE as int);
    assert forall|k: int| 0 <= k < pages.len() implies page_of(#[trigger] pages[k], all, keep0, (k + 1) as u32, per_page) by {
        assert(paginated(pages[k], all, (k + 1) as u32, per_page, query, matches));
        let (kk, nn) = choose|keep: Seq<bool>, needle: &str|
            #[trigger] kept_by(keep, needle, all, query, matches) && page_of(pages[k], all, keep, (k + 1) as u32, per_page);
        lemma_one_outcome(all, query, matches, kk, nn, keep0, needle0);
    }
    assert(pages.len() == page_count(total, pp));
    lemma_joined_prefix(all, keep0, per_page, pages, pages.len() as int);
    assert(pages.take(pages.len() as int) =~= pages);
    lemma_pages_partition(total, pp, pages.len() as int);
    assert forall|k: int| 0 <= k < pages.len() - 1 implies (#[trigger] pages[k]).items@.len() == pp by {
        assert(page_of(pages[k], all, keep0, (k + 1) as u32, per_page));
        lemma_pages_partition(total, pp, k + 1);
    }
}

/// A page number past the last page (or 0) gives the last (or the first)
/// page: `paginate` clamps the page number into `1..=total_pages`.
pub proof fn lemma_page_number_clamped<T: Clone, F: Fn(&T, &str) -> bool>(
    r: Page<T>,
    all: Seq<T>,
    page: u32,
    per_page: u32,
    query: Seq<char>,
    matches: F,
)
    requires
        paginated(r, all, page, per_page, query, matches),
    ensures
        r.total_pages >= 1,
        r.page == clamp(page as int, 1, r.total_pages as int),
{
    let (keep, needle) = choose|keep: Seq<bool>, needle: &str|
        #[trigger] kept_by(keep, needle, all, query, matches) && page_of(r, all, keep, page, per_page);
    let total = kept(all, keep).len() as int;
    let pp = clamp(per_page as int, 1, MAX_PER_PAGE as int);
    if total > 0 {
        let tp = page_count(total, pp);
        assert((tp - 1) * pp < total && total <= tp * pp) by (nonlinear_arith)
            requires
                tp == (total + pp - 1) / pp,
                total > 0,
                pp >= 1,
        ;
        assert(tp >= 1) by (nonlinear_arith)
            requires
                (tp - 1) * pp < total,
                total <= tp * pp,
                pp >= 1,
                total > 0,
        ;
    }
}

/// A page that `paginate` returns has a next page exactly when the entries
/// before its end do not exhaust the filtered listing: so not on the last
/// page, and not when nothing matched.
pub proof fn lemma_has_next_iff_more_entries<T: Clone>(
    r: Page<T>,
    all: Seq<T>,
    keep: Seq<bool>,
    page: u32,
    per_page: u32,
)
    requires
        page_of(r, all, keep, page, per_page),
    ensures
        (r.page < r.total_pages) <==> r.page * r.per_page < r.total,
{
    let pp = clamp(per_page as int, 1, MAX_PER_PAGE as int);
    let total = kept(all, keep).len() as int;
    let tp = page_count(total, pp);
    if total > 0 {
        assert((tp - 1) * pp < total && total <= tp * pp) by (nonlinear_arith)
            requires
                tp == (total + pp - 1) / pp,
                total > 0,
                pp >= 1,
        ;
        assert(tp >= 1) by (nonlinear_arith)
            requires
                (tp - 1) * pp < total,
                total <= tp * pp,
                pp >= 1,
                total > 0,
        ;
    }
    lemma_pages_partition(total, pp, r.page as int);
}

// ---------------------------------------------------------------------------
// Paths and publishing

/// Resolve the path of a catalog file in `dir`; rejects path traversal.
/// (The caller checks that the file exists.)
pub fn path<S: CatalogSpec>(dir: &str, filename: &str) -> (r: Option<String>)
    ensures
        match r {
            Some(p) => S::accepts(filename@) && p@ == path_join(dir@, filename@),
            None => !S::accepts(filename@),
        },
{
    if !S::is_safe_filename(filename) {
        return None;
    }
    Some(join_path(dir, filename))
}

/// The hidden temporary file an upload is written to before its rename.
pub open spec fn tmp_name(filename: Seq<char>) -> Seq<char> {
    seq!['.'] + filename + seq!['.', 't', 'm', 'p']
}

/// `dir/.{filename}.tmp`.
pub fn tmp_path(dir: &str, filename: &str) -> (r: String)
    ensures
        r@ == path_join(dir@, tmp_name(filename@)),
{
    let mut name = String::new();
    push_char(&mut name, '.');
    let f = chars_of(filename);
    let mut k: usize = 0;
    while k < f.len()
        invariant
            k <= f@.len(),
            f@ == filename@,
            name@ == seq!['.'] + f@.take(k as int),
        decreases f@.len() - k,
    {
        push_char(&mut name, f[k]);
        proof {
            assert(f@.take(k + 1) =~= f@.take(k as int).push(f@[k as int]));
        }
        k = k + 1;
    }
    push_char(&mut name, '.');
    push_char(&mut name, 't');
    push_char(&mut name, 'm');
    push_char(&mut name, 'p');
    proof {
        assert(f@.take(f@.len() as int) =~= f@);
        assert(name@ =~= tmp_name(filename@));
    }
    join_path(dir, name.as_str())
}

/// Why a publish or delete was rejected.
#[derive(Debug)]
pub enum PublishError {
    /// Filename empty, wrong extension, or contains path separators.
    InvalidFilename,
    /// Upload body was empty.
    EmptyBody,
    /// Upload exceeds the per-catalog size cap.
    TooLarge,
    /// No such published file.
    NotFound,
    /// Content failed catalog-specific validation.
    InvalidContent(String),
    /// Underlying filesystem failure.
    Io(String),
}

impl PublishError {
    /// The error's text, as the service reports it.
    pub fn message(&self) -> (r: String)
        ensures
            r@ == match self {
                PublishError::InvalidFilename => "invalid filename"@,
                PublishError::EmptyBody => "empty body"@,
                PublishError::TooLarge => "file too large"@,
                PublishError::NotFound => "file not found"@,
                PublishError::InvalidContent(m) => "invalid content: "@ + m@,
                PublishError::Io(m) => "io error: "@ + m@,
            },
    {
        match self {
            PublishError::InvalidFilename => "invalid filename".to_string(),
            PublishError::EmptyBody => "empty body".to_string(),
            PublishError::TooLarge => "file too large".to_string(),
            PublishError::NotFound => "file not found".to_string(),
            PublishError::InvalidContent(m) => {
                let mut out = "invalid content: ".to_string();
                push_str(&mut out, m.as_str());
                out
            },
            PublishError::Io(m) => {
                let mut out = "io error: ".to_string();
                push_str(&mut out, m.as_str());
                out
            },
        }
    }
}

/// HTTP status for a catalog publish/delete failure.
pub fn publish_status(err: &PublishError) -> (r: u16)
    ensures
        r == match err {
            PublishError::InvalidFilename | PublishError::EmptyBody | PublishError::InvalidContent(
                _,
            ) => 400u16,
            PublishError::TooLarge => 413u16,
            PublishError::NotFound => 404u16,
            PublishError::Io(_) => 500u16,
        },
{
    match err {
        PublishError::InvalidFilename | PublishError::EmptyBody | PublishError::InvalidContent(_) =>
            400,
        PublishError::TooLarge => 413,
        PublishError::NotFound => 404,
        PublishError::Io(_) => 500,
    }
}

/// The checks an in-memory publish makes before anything is written:
/// filename, then an empty body, then the size cap.
pub fn check_publish<S: CatalogSpec>(filename: &str, len: u64) -> (r: Result<(), PublishError>)
    ensures
        match r {
            Ok(()) => S::accepts(filename@) && len > 0 && len <= S::max_size(),
            Err(PublishError::InvalidFilename) => !S::accepts(filename@),
            Err(PublishError::EmptyBody) => S::accepts(filename@) && len == 0,
            Err(PublishError::TooLarge) => S::accepts(filename@) && len > 0 && len > S::max_size(),
            Err(_) => false,
        },
{
    if !S::is_safe_filename(filename) {
        return Err(PublishError::InvalidFilename);
    }
    if len == 0 {
        return Err(PublishError::EmptyBody);
    }
    if len > S::max_bytes() {
        return Err(PublishError::TooLarge);
    }
    Ok(())
}

/// Byte count of a streamed upload, checked against a cap after every
/// chunk.
pub struct UploadProgress {
    pub written: u64,
    pub max: u64,
}

impl UploadProgress {
    pub fn new(max: u64) -> (r: Self)
        ensures
            r.written == 0,
            r.max == max,
    {
        UploadProgress { written: 0, max }
    }

    /// Counts a chunk of `len` bytes; `TooLarge` once the total exceeds the
    /// cap.
    pub fn add_chunk(&mut self, len: u64) -> (r: Result<(), PublishError>)
        requires
            old(self).written + len <= u64::MAX,
        ensures
            final(self).written == old(self).written + len,
            final(self).max == old(self).max,
            match r {
                Ok(()) => final(self).written <= final(self).max,
                Err(PublishError::TooLarge) => final(self).written > final(self).max,
                Err(_) => false,
            },
    {
        self.written = self.written + len;
        if self.written > self.max {
            Err(PublishError::TooLarge)
        } else {
            Ok(())
        }
    }

    /// The byte count once the body has ended; `EmptyBody` when nothing came.
    pub fn finish(&self) -> (r: Result<u64, PublishError>)
        ensures
            match r {
                Ok(n) => n == self.written && n > 0,
                Err(PublishError::EmptyBody) => self.written == 0,
                Err(_) => false,
            },
    {
        if self.written == 0 {
            Err(PublishError::EmptyBody)
        } else {
            Ok(self.written)
        }
    }
}

// ---------------------------------------------------------------------------
// Listing cache

/// Summary of a directory's matching files; equality means "unchanged".
#[derive(Debug, Clone, Copy, PartialEq, Eq, Structural)]
pub struct DirFingerprint {
    /// Number of matching files.
    pub count: u64,
    /// Sum of their sizes.
    pub total_bytes: u64,
    /// Most recent mtime (seconds since the epoch).
    pub newest_mtime_secs: u64,
}

impl DirFingerprint {
    /// The fingerprint of a directory without matching files.
    pub fn empty() -> (r: Self)
        ensures
            r.count == 0 && r.total_bytes == 0 && r.newest_mtime_secs == 0,
    {
        DirFingerprint { count: 0, total_bytes: 0, newest_mtime_secs: 0 }
    }

    /// Counts one more matching file.
    pub fn add_file(&mut self, size_bytes: u64, mtime_secs: u64)
        requires
            old(self).count < u64::MAX,
            old(self).total_bytes + size_bytes <= u64::MAX,
        ensures
            final(self).count == old(self).count + 1,
            final(self).total_bytes == old(self).total_bytes + size_bytes,
            final(self).newest_mtime_secs == if mtime_secs > old(self).newest_mtime_secs {
                mtime_secs
            } else {
                old(self).newest_mtime_secs
            },
    {
        self.count = self.count + 1;
        self.total_bytes = self.total_bytes + size_bytes;
        if mtime_secs > self.newest_mtime_secs {
            self.newest_mtime_secs = mtime_secs;
        }
    }
}

/// A scanned listing plus the fingerprint it was taken at.
pub struct ListCache<T> {
    /// Directory state when `items` was scanned.
    pub fingerprint: DirFingerprint,
    /// The cached listing.
    pub items: Vec<T>,
}

impl<T> ListCache<T> {
    /// An empty, never-populated cache slot.
    pub fn empty() -> (r: Option<Self>)
        ensures
            r is None,
    {
        None
    }

    /// Whether the cached listing is still that of a directory with this
    /// fingerprint.
    pub fn is_fresh(&self, fingerprint: &DirFingerprint) -> (r: bool)
        ensures
            r == (self.fingerprint == *fingerprint),
    {
        self.fingerprint == *fingerprint
    }
}

/// Whether a cache slot holds the listing of a directory with this
/// fingerprint.
pub open spec fn fresh<T>(slot: Option<ListCache<T>>, fingerprint: DirFingerprint) -> bool {
    slot matches Some(c) && c.fingerprint == fingerprint
}

/// A catalog listing through its cache slot: a copy of the cached items
/// while the directory keeps the fingerprint they were scanned at; else a
/// fresh `scan`, whose copy then fills the slot.
pub fn list_in<T: Clone, F: FnOnce() -> Vec<T>>(
    slot: &mut Option<ListCache<T>>,
    fingerprint: DirFingerprint,
    scan: F,
) -> (r: Vec<T>)
    requires
        call_requires(scan, ()),
    ensures
        fresh(*old(slot), fingerprint) ==> {
            &&& *final(slot) == *old(slot)
            &&& r@.len() == old(slot)->0.items@.len()
            &&& forall|i: int|
                0 <= i < r@.len() ==> cloned::<T>(old(slot)->0.items@[i], #[trigger] r@[i])
        },
        !fresh(*old(slot), fingerprint) ==> {
            &&& call_ensures(scan, (), r)
            &&& *final(slot) matches Some(c)
            &&& c.fingerprint == fingerprint
            &&& c.items@.len() == r@.len()
            &&& forall|i: int| 0 <= i < r@.len() ==> cloned::<T>(r@[i], #[trigger] c.items@[i])
        },
{
    match slot {
        Some(c) => {
            if c.is_fresh(&fingerprint) {
                return c.items.clone();
            }
        },
        None => {},
    }
    let items = scan();
    *slot = Some(ListCache { fingerprint, items: items.clone() });
    items
}

/// Drop the listing cache (after publish/delete).
pub fn invalidate<T>(slot: &mut Option<ListCache<T>>)
    ensures
        *final(slot) is None,
{
    *slot = None;
}

} // verus!
