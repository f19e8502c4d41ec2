//! Character-level text operations on `Seq<char>` views, with the exact
//! meaning of the `str` operations they stand for.

use vstd::prelude::*;

verus! {

/// Unicode `White_Space`, as `char::is_whitespace` defines it.
pub open spec fn is_ws(c: char) -> bool {
    c == ' ' || ('\t' <= c && c <= '\r') || c == '\u{85}' || c == '\u{A0}' || c == '\u{1680}'
        || ('\u{2000}' <= c && c <= '\u{200A}') || c == '\u{2028}' || c == '\u{2029}'
        || c == '\u{202F}' || c == '\u{205F}' || c == '\u{3000}'
}

pub fn is_ws_char(c: char) -> (b: bool)
    ensures
        b == is_ws(c),
{
    c == ' ' || ('\t' <= c && c <= '\r') || c == '\u{85}' || c == '\u{A0}' || c == '\u{1680}'
        || ('\u{2000}' <= c && c <= '\u{200A}') || c == '\u{2028}' || c == '\u{2029}'
        || c == '\u{202F}' || c == '\u{205F}' || c == '\u{3000}'
}

/// First index in `[i, hi)` that is not whitespace, or `hi`.
pub open spec fn skip_ws(s: Seq<char>, i: int, hi: int) -> int
    decreases hi - i,
{
    if i < hi && is_ws(s[i]) {
        skip_ws(s, i + 1, hi)
    } else {
        i
    }
}

/// End of `[lo, j)` once trailing whitespace is dropped.
pub open spec fn back_ws(s: Seq<char>, lo: int, j: int) -> int
    decreases j - lo,
{
    if lo < j && is_ws(s[j - 1]) {
        back_ws(s, lo, j - 1)
    } else {
        j
    }
}

/// `str::trim` on the range `[lo, hi)`, as a range.
pub open spec fn trim_range(s: Seq<char>, lo: int, hi: int) -> (int, int) {
    let a = skip_ws(s, lo, hi);
    (a, back_ws(s, a, hi))
}

/// `str::trim`.
pub open spec fn trim(s: Seq<char>) -> Seq<char> {
    let r = trim_range(s, 0, s.len() as int);
    s.subrange(r.0, r.1)
}

/// `str::trim_start`.
pub open spec fn trim_start(s: Seq<char>) -> Seq<char> {
    s.subrange(skip_ws(s, 0, s.len() as int), s.len() as int)
}

pub proof fn lemma_skip_ws_bounds(s: Seq<char>, i: int, hi: int)
    requires
        i <= hi,
    ensures
        i <= skip_ws(s, i, hi) <= hi,
    decreases hi - i,
{
    if i < hi && is_ws(s[i]) {
        lemma_skip_ws_bounds(s, i + 1, hi);
    }
}

pub proof fn lemma_back_ws_bounds(s: Seq<char>, lo: int, j: int)
    requires
        lo <= j,
    ensures
        lo <= back_ws(s, lo, j) <= j,
    decreases j - lo,
{
    if lo < j && is_ws(s[j - 1]) {
        lemma_back_ws_bounds(s, lo, j - 1);
    }
}

/// Trims whitespace from both ends of `s[lo..hi]`.
pub fn trim_bounds(s: &[char], lo: usize, hi: usize) -> (r: (usize, usize))
    requires
        lo <= hi <= s@.len(),
    ensures
        r.0 == trim_range(s@, lo as int, hi as int).0,
        r.1 == trim_range(s@, lo as int, hi as int).1,
        lo <= r.0 <= r.1 <= hi,
{
    let mut a = lo;
    while a < hi && is_ws_char(s[a])
        invariant
            lo <= a <= hi <= s@.len(),
            skip_ws(s@, a as int, hi as int) == skip_ws(s@, lo as int, hi as int),
        decreases hi - a,
    {
        a = a + 1;
    }
    let mut b = hi;
    while a < b && is_ws_char(s[b - 1])
        invariant
            lo <= a <= b <= hi <= s@.len(),
            a == skip_ws(s@, lo as int, hi as int),
            back_ws(s@, a as int, b as int) == back_ws(s@, a as int, hi as int),
        decreases b - a,
    {
        b = b - 1;
    }
    (a, b)
}


/// First index of `c` in `[i, hi)`.
pub open spec fn find_char(s: Seq<char>, c: char, i: int, hi: int) -> Option<int>
    decreases hi - i,
{
    if i >= hi {
        None
    } else if s[i] == c {
        Some(i)
    } else {
        find_char(s, c, i + 1, hi)
    }
}

/// Last index of `c` in `[lo, j)`.
pub open spec fn rfind_char(s: Seq<char>, c: char, lo: int, j: int) -> Option<int>
    decreases j - lo,
{
    if j <= lo {
        None
    } else if s[j - 1] == c {
        Some(j - 1)
    } else {
        rfind_char(s, c, lo, j - 1)
    }
}

pub proof fn lemma_find_char(s: Seq<char>, c: char, i: int, hi: int)
    ensures
        find_char(s, c, i, hi) matches Some(j) ==> i <= j < hi && s[j] == c && forall|k: int|
            i <= k < j ==> s[k] != c,
        find_char(s, c, i, hi) is None ==> forall|k: int| i <= k < hi ==> s[k] != c,
    decreases hi - i,
{
    if i < hi && s[i] != c {
        lemma_find_char(s, c, i + 1, hi);
    }
}

pub proof fn lemma_rfind_char(s: Seq<char>, c: char, lo: int, j: int)
    ensures
        rfind_char(s, c, lo, j) matches Some(k) ==> lo <= k < j && s[k] == c && forall|m: int|
            k < m < j ==> s[m] != c,
        rfind_char(s, c, lo, j) is None ==> forall|m: int| lo <= m < j ==> s[m] != c,
    decreases j - lo,
{
    if lo < j && s[j - 1] != c {
        lemma_rfind_char(s, c, lo, j - 1);
    }
}

/// Index of the first `c` in `s[i..hi]`.
pub fn find_in(s: &[char], c: char, i: usize, hi: usize) -> (r: Option<usize>)
    requires
        i <= hi <= s@.len(),
    ensures
        match r {
            Some(j) => find_char(s@, c, i as int, hi as int) == Some(j as int),
            None => find_char(s@, c, i as int, hi as int) is None,
        },
{
    let mut k = i;
    while k < hi
        invariant
            i <= k <= hi <= s@.len(),
            find_char(s@, c, k as int, hi as int) == find_char(s@, c, i as int, hi as int),
        decreases hi - k,
    {
        if s[k] == c {
            return Some(k);
        }
        k = k + 1;
    }
    None
}

/// Index of the last `c` in `s[lo..j]`.
pub fn rfind_in(s: &[char], c: char, lo: usize, j: usize) -> (r: Option<usize>)
    requires
        lo <= j <= s@.len(),
    ensures
        match r {
            Some(k) => rfind_char(s@, c, lo as int, j as int) == Some(k as int),
            None => rfind_char(s@, c, lo as int, j as int) is None,
        },
{
    let mut k = j;
    while lo < k
        invariant
            lo <= k <= j <= s@.len(),
            rfind_char(s@, c, lo as int, k as int) == rfind_char(s@, c, lo as int, j as int),
        decreases k - lo,
    {
        if s[k - 1] == c {
            return Some(k - 1);
        }
        k = k - 1;
    }
    None
}

/// `str::split(c)` on `[i, hi)`, as ranges: always at least one piece.
pub open spec fn split_ranges(s: Seq<char>, c: char, i: int, hi: int) -> Seq<(int, int)>
    decreases hi - i + 1,
{
    match find_char(s, c, i, hi) {
        None => seq![(i, hi)],
        Some(j) => {
            proof {
                lemma_find_char(s, c, i, hi);
            }
            if i <= j && j < hi {
                seq![(i, j)] + split_ranges(s, c, j + 1, hi)
            } else {
                seq![(i, hi)]
            }
        },
    }
}

/// Integer view of a list of index ranges.
pub open spec fn ranges_view(r: Seq<(usize, usize)>) -> Seq<(int, int)> {
    r.map_values(|p: (usize, usize)| (p.0 as int, p.1 as int))
}

pub proof fn lemma_split_ranges_bounds(s: Seq<char>, c: char, i: int, hi: int)
    requires
        i <= hi,
    ensures
        forall|k: int|
            0 <= k < split_ranges(s, c, i, hi).len() ==> i <= #[trigger] split_ranges(
                s,
                c,
                i,
                hi,
            )[k].0 <= split_ranges(s, c, i, hi)[k].1 <= hi,
    decreases hi - i + 1,
{
    lemma_find_char(s, c, i, hi);
    match find_char(s, c, i, hi) {
        None => {},
        Some(j) => {
            lemma_split_ranges_bounds(s, c, j + 1, hi);
            let rest = split_ranges(s, c, j + 1, hi);
            assert(split_ranges(s, c, i, hi) =~= seq![(i, j)] + rest);
            assert forall|k: int| 0 <= k < split_ranges(s, c, i, hi).len() implies i
                <= #[trigger] split_ranges(s, c, i, hi)[k].0 <= split_ranges(s, c, i, hi)[k].1
                <= hi by {
                if k > 0 {
                    assert(split_ranges(s, c, i, hi)[k] == rest[k - 1]);
                }
            }
        },
    }
}

/// The ranges of `s[lo..hi].split(c)`.
pub fn split_in(s: &[char], c: char, lo: usize, hi: usize) -> (r: Vec<(usize, usize)>)
    requires
        lo <= hi <= s@.len(),
    ensures
        ranges_view(r@) == split_ranges(s@, c, lo as int, hi as int),
        forall|k: int| 0 <= k < r@.len() ==> lo <= #[trigger] r@[k].0 <= r@[k].1 <= hi,
{
    let mut out: Vec<(usize, usize)> = Vec::new();
    let mut start = lo;
    proof {
        assert(ranges_view(out@) + split_ranges(s@, c, start as int, hi as int) =~= split_ranges(
            s@,
            c,
            lo as int,
            hi as int,
        ));
    }
    loop
        invariant
            lo <= start <= hi <= s@.len(),
            ranges_view(out@) + split_ranges(s@, c, start as int, hi as int) == split_ranges(
                s@,
                c,
                lo as int,
                hi as int,
            ),
            forall|k: int| 0 <= k < out@.len() ==> lo <= #[trigger] out@[k].0 <= out@[k].1 <= hi,
        decreases hi - start,
    {
        proof {
            lemma_find_char(s@, c, start as int, hi as int);
        }
        match find_in(s, c, start, hi) {
            None => {
                let ghost prev = out@;
                out.push((start, hi));
                proof {
                    assert forall|k: int| 0 <= k < out@.len() implies lo <= #[trigger] out@[k].0
                        <= out@[k].1 <= hi by {
                        if k < prev.len() {
                            assert(out@[k] == prev[k]);
                        }
                    }
                    assert(ranges_view(out@) =~= ranges_view(prev) + seq![(start as int, hi as int)]);
                }
                return out;
            },
            Some(j) => {
                let ghost prev = out@;
                proof {
                    assert(start <= j < hi);
                }
                out.push((start, j));
                proof {
                    assert forall|k: int| 0 <= k < out@.len() implies lo <= #[trigger] out@[k].0
                        <= out@[k].1 <= hi by {
                        if k < prev.len() {
                            assert(out@[k] == prev[k]);
                        }
                    }
                    assert(ranges_view(out@) =~= ranges_view(prev) + seq![(start as int, j as int)]);
                    assert(split_ranges(s@, c, start as int, hi as int) =~= seq![(start as int, j as int)]
                        + split_ranges(s@, c, j + 1, hi as int));
                    assert(ranges_view(out@) + split_ranges(s@, c, j + 1, hi as int) =~= ranges_view(prev)
                        + split_ranges(s@, c, start as int, hi as int));
                }
                start = j + 1;
            },
        }
    }
}

/// Calls `String::push`, which std documents as appending `c` to the end of
/// the string; claimed: the characters afterwards are the old ones followed
/// by `c`.
#[verifier::external_body]
pub(crate) fn push_char(s: &mut String, c: char)
    ensures
        final(s)@ == old(s)@.push(c),
{
    s.push(c);
}

/// A new string holding `s[lo..hi]`.
pub fn string_of(s: &[char], lo: usize, hi: usize) -> (r: String)
    requires
        lo <= hi <= s@.len(),
    ensures
        r@ == s@.subrange(lo as int, hi as int),
{
    let mut out = String::new();
    let mut k = lo;
    while k < hi
        invariant
            lo <= k <= hi <= s@.len(),
            out@ == s@.subrange(lo as int, k as int),
        decreases hi - k,
    {
        push_char(&mut out, s[k]);
        proof {
            assert(s@.subrange(lo as int, k + 1) =~= s@.subrange(lo as int, k as int).push(s@[k as int]));
        }
        k = k + 1;
    }
    out
}

/// The characters of `s`.
pub fn chars_of(s: &str) -> (r: Vec<char>)
    ensures
        r@ == s@,
{
    let mut out: Vec<char> = Vec::new();
    for c in it: s.chars()
        invariant
            out@ == it.seq().take(it.index() as int),
    {
        proof {
            assert(it.seq().take(it.index() + 1) =~= it.seq().take(it.index() as int).push(c));
        }
        out.push(c);
    }
    out
}


/// Whether `a[alo..ahi]` and `b[blo..bhi]` hold the same characters.
pub fn same_chars(a: &[char], alo: usize, ahi: usize, b: &[char], blo: usize, bhi: usize) -> (r:
    bool)
    requires
        alo <= ahi <= a@.len(),
        blo <= bhi <= b@.len(),
    ensures
        r == (a@.subrange(alo as int, ahi as int) == b@.subrange(blo as int, bhi as int)),
{
    if ahi - alo != bhi - blo {
        proof {
            assert(a@.subrange(alo as int, ahi as int).len() != b@.subrange(
                blo as int,
                bhi as int,
            ).len());
        }
        return false;
    }
    let n = ahi - alo;
    let ghost sa = a@.subrange(alo as int, ahi as int);
    let ghost sb = b@.subrange(blo as int, bhi as int);
    let mut k: usize = 0;
    while k < n
        invariant
            n == ahi - alo == bhi - blo,
            alo <= ahi <= a@.len(),
            blo <= bhi <= b@.len(),
            sa == a@.subrange(alo as int, ahi as int),
            sb == b@.subrange(blo as int, bhi as int),
            k <= n,
            forall|m: int| 0 <= m < k ==> #[trigger] sa[m] == sb[m],
        decreases n - k,
    {
        if a[alo + k] != b[blo + k] {
            proof {
                assert(sa[k as int] != sb[k as int]);
            }
            return false;
        }
        k = k + 1;
    }
    proof {
        assert(a@.subrange(alo as int, ahi as int) =~= b@.subrange(blo as int, bhi as int));
    }
    true
}

/// Whether two strings hold the same characters.
pub fn same_text(a: &str, b: &str) -> (r: bool)
    ensures
        r == (a@ == b@),
{
    let x = chars_of(a);
    let y = chars_of(b);
    let r = same_chars(x.as_slice(), 0, x.len(), y.as_slice(), 0, y.len());
    proof {
        assert(x@.subrange(0, x@.len() as int) =~= x@);
        assert(y@.subrange(0, y@.len() as int) =~= y@);
    }
    r
}


/// Lexicographic order by code point, which is how `String`'s `Ord` orders
/// (UTF-8 bytes compare as their code points do).
pub open spec fn text_lt(a: Seq<char>, b: Seq<char>) -> bool
    decreases a.len(),
{
    if a.len() == 0 {
        b.len() > 0
    } else if b.len() == 0 {
        false
    } else if a[0] < b[0] {
        true
    } else if a[0] == b[0] {
        text_lt(a.drop_first(), b.drop_first())
    } else {
        false
    }
}

pub proof fn lemma_text_lt_irreflexive(a: Seq<char>)
    ensures
        !text_lt(a, a),
    decreases a.len(),
{
    if a.len() > 0 {
        lemma_text_lt_irreflexive(a.drop_first());
    }
}

pub proof fn lemma_text_lt_transitive(a: Seq<char>, b: Seq<char>, c: Seq<char>)
    requires
        text_lt(a, b),
        text_lt(b, c),
    ensures
        text_lt(a, c),
    decreases a.len(),
{
    if a.len() > 0 && b.len() > 0 && c.len() > 0 {
        if a[0] == b[0] && b[0] == c[0] {
            lemma_text_lt_transitive(a.drop_first(), b.drop_first(), c.drop_first());
        }
    }
}

pub proof fn lemma_text_lt_total(a: Seq<char>, b: Seq<char>)
    ensures
        text_lt(a, b) || text_lt(b, a) || a == b,
    decreases a.len(),
{
    if a.len() > 0 && b.len() > 0 {
        if a[0] == b[0] {
            lemma_text_lt_total(a.drop_first(), b.drop_first());
            if a.drop_first() == b.drop_first() {
                assert(a =~= seq![a[0]] + a.drop_first());
                assert(b =~= seq![b[0]] + b.drop_first());
            }
        }
    } else if a.len() == 0 && b.len() == 0 {
        assert(a =~= b);
    }
}

pub proof fn lemma_text_lt_asymmetric(a: Seq<char>, b: Seq<char>)
    requires
        text_lt(a, b),
    ensures
        !text_lt(b, a),
{
    if text_lt(b, a) {
        lemma_text_lt_transitive(a, b, a);
        lemma_text_lt_irreflexive(a);
    }
}

/// Whether `a` orders before `b`.
pub fn text_less(a: &[char], b: &[char]) -> (r: bool)
    ensures
        r == text_lt(a@, b@),
{
    let mut i: usize = 0;
    proof {
        assert(a@.skip(0) =~= a@);
        assert(b@.skip(0) =~= b@);
    }
    while i < a.len() && i < b.len()
        invariant
            i <= a@.len(),
            i <= b@.len(),
            text_lt(a@.skip(i as int), b@.skip(i as int)) == text_lt(a@, b@),
        decreases a@.len() - i,
    {
        proof {
            assert(a@.skip(i as int).drop_first() =~= a@.skip(i + 1));
            assert(b@.skip(i as int).drop_first() =~= b@.skip(i + 1));
        }
        if a[i] < b[i] {
            return true;
        }
        if a[i] != b[i] {
            return false;
        }
        i = i + 1;
    }
    i == a.len() && i < b.len()
}

/// Whether string `a` orders before string `b`.
pub fn str_less(a: &str, b: &str) -> (r: bool)
    ensures
        r == text_lt(a@, b@),
{
    let x = chars_of(a);
    let y = chars_of(b);
    text_less(x.as_slice(), y.as_slice())
}


/// `char::to_ascii_lowercase`.
pub open spec fn ascii_lower(c: char) -> char {
    if 'A' <= c && c <= 'Z' {
        ((c as u32) + 32) as char
    } else {
        c
    }
}

/// `str::to_ascii_lowercase`.
pub open spec fn lower(s: Seq<char>) -> Seq<char> {
    s.map_values(|c: char| ascii_lower(c))
}

pub fn ascii_lower_char(c: char) -> (r: char)
    ensures
        r == ascii_lower(c),
{
    if 'A' <= c && c <= 'Z' {
        ((c as u8) + 32) as char
    } else {
        c
    }
}

/// The lowercase characters of `s`.
pub fn lower_chars(s: &str) -> (r: Vec<char>)
    ensures
        r@ == lower(s@),
{
    let cs = chars_of(s);
    let mut out: Vec<char> = Vec::new();
    let mut k: usize = 0;
    while k < cs.len()
        invariant
            k <= cs@.len(),
            cs@ == s@,
            out@ == lower(cs@.take(k as int)),
        decreases cs@.len() - k,
    {
        out.push(ascii_lower_char(cs[k]));
        proof {
            assert(lower(cs@.take(k + 1)) =~= lower(cs@.take(k as int)).push(ascii_lower(cs@[k as int])));
        }
        k = k + 1;
    }
    proof {
        assert(cs@.take(cs@.len() as int) =~= cs@);
    }
    out
}

/// `t` occurs in `s` starting at `i`.
pub open spec fn occurs_at(s: Seq<char>, t: Seq<char>, i: int) -> bool {
    0 <= i && i + t.len() <= s.len() && s.subrange(i, i + t.len()) == t
}

/// `str::contains` with a string pattern.
pub open spec fn has_sub(s: Seq<char>, t: Seq<char>) -> bool {
    exists|i: int| #[trigger] occurs_at(s, t, i)
}

/// `str::ends_with`.
pub open spec fn ends_with(s: Seq<char>, t: Seq<char>) -> bool {
    t.len() <= s.len() && s.subrange(s.len() - t.len(), s.len() as int) == t
}

/// `str::starts_with`.
pub open spec fn starts_with(s: Seq<char>, t: Seq<char>) -> bool {
    t.len() <= s.len() && s.subrange(0, t.len() as int) == t
}

/// Whether `t` occurs in `s`.
pub fn contains_text(s: &[char], t: &[char]) -> (r: bool)
    ensures
        r == has_sub(s@, t@),
{
    if t.len() > s.len() {
        proof {
            assert forall|i: int| !occurs_at(s@, t@, i) by {}
        }
        return false;
    }
    let mut i: usize = 0;
    let tl = t.len();
    let sl = s.len();
    let last = sl - tl;
    proof {
        assert(t@.subrange(0, t@.len() as int) =~= t@);
    }
    while i < last
        invariant
            t@.len() <= s@.len(),
            tl == t@.len(),
            sl == s@.len(),
            last == s@.len() - t@.len(),
            i <= last,
            t@.subrange(0, t@.len() as int) == t@,
            forall|m: int| 0 <= m < i ==> !#[trigger] occurs_at(s@, t@, m),
        decreases last - i,
    {
        if same_chars(s, i, i + tl, t, 0, tl) {
            proof {
                assert(occurs_at(s@, t@, i as int));
            }
            return true;
        }
        i = i + 1;
    }
    if same_chars(s, last, s.len(), t, 0, t.len()) {
        proof {
            assert(occurs_at(s@, t@, last as int));
        }
        return true;
    }
    proof {
        assert forall|m: int| !occurs_at(s@, t@, m) by {
            if 0 <= m && m <= last {
            }
        }
    }
    false
}

/// Whether `s` ends with `t`.
pub fn ends_with_text(s: &[char], t: &[char]) -> (r: bool)
    ensures
        r == ends_with(s@, t@),
{
    if t.len() > s.len() {
        return false;
    }
    let r = same_chars(s, s.len() - t.len(), s.len(), t, 0, t.len());
    proof {
        assert(t@.subrange(0, t@.len() as int) =~= t@);
    }
    r
}

/// Whether `s` starts with `t`.
pub fn starts_with_text(s: &[char], t: &[char]) -> (r: bool)
    ensures
        r == starts_with(s@, t@),
{
    if t.len() > s.len() {
        return false;
    }
    let r = same_chars(s, 0, t.len(), t, 0, t.len());
    proof {
        assert(t@.subrange(0, t@.len() as int) =~= t@);
    }
    r
}

/// Whether `c` occurs in `s`.
pub fn has_char(s: &[char], c: char) -> (r: bool)
    ensures
        r == s@.contains(c),
{
    proof {
        lemma_find_char(s@, c, 0, s@.len() as int);
    }
    match find_in(s, c, 0, s.len()) {
        Some(j) => {
            proof {
                assert(s@[j as int] == c);
            }
            true
        },
        None => false,
    }
}

/// The decimal digit for `d < 10`.
pub open spec fn digit_char(d: int) -> char {
    if d == 0 {
        '0'
    } else if d == 1 {
        '1'
    } else if d == 2 {
        '2'
    } else if d == 3 {
        '3'
    } else if d == 4 {
        '4'
    } else if d == 5 {
        '5'
    } else if d == 6 {
        '6'
    } else if d == 7 {
        '7'
    } else if d == 8 {
        '8'
    } else {
        '9'
    }
}

/// The value of a decimal digit character.
pub open spec fn digit_value(c: char) -> int {
    (c as u32) - ('0' as u32)
}

pub open spec fn is_digit(c: char) -> bool {
    '0' <= c && c <= '9'
}

/// `n` written in decimal, as `Display` writes integers.
pub open spec fn decimal(n: nat) -> Seq<char>
    decreases n,
{
    if n < 10 {
        seq![digit_char(n as int)]
    } else {
        decimal(n / 10).push(digit_char((n % 10) as int))
    }
}

fn digit_of(d: u64) -> (c: char)
    requires
        d < 10,
    ensures
        c == digit_char(d as int),
{
    if d == 0 {
        '0'
    } else if d == 1 {
        '1'
    } else if d == 2 {
        '2'
    } else if d == 3 {
        '3'
    } else if d == 4 {
        '4'
    } else if d == 5 {
        '5'
    } else if d == 6 {
        '6'
    } else if d == 7 {
        '7'
    } else if d == 8 {
        '8'
    } else {
        '9'
    }
}

/// Appends `n` in decimal.
pub fn push_decimal(out: &mut String, n: u64)
    ensures
        final(out)@ == old(out)@ + decimal(n as nat),
    decreases n,
{
    if n < 10 {
        push_char(out, digit_of(n));
    } else {
        push_decimal(out, n / 10);
        push_char(out, digit_of(n % 10));
        proof {
            assert(old(out)@ + decimal(n as nat) =~= (old(out)@ + decimal((n / 10) as nat)).push(
                digit_char((n % 10) as int),
            ));
        }
    }
}

/// Appends the characters of `t`.
pub fn push_str(out: &mut String, t: &str)
    ensures
        final(out)@ == old(out)@ + t@,
{
    let cs = chars_of(t);
    let mut k: usize = 0;
    while k < cs.len()
        invariant
            k <= cs@.len(),
            cs@ == t@,
            out@ == old(out)@ + cs@.take(k as int),
        decreases cs@.len() - k,
    {
        push_char(out, cs[k]);
        proof {
            assert(cs@.take(k + 1) =~= cs@.take(k as int).push(cs@[k as int]));
        }
        k = k + 1;
    }
    proof {
        assert(cs@.take(cs@.len() as int) =~= cs@);
    }
}

/// `str::trim_end_matches` with a character: every trailing `c` removed.
pub open spec fn trim_end_char(s: Seq<char>, c: char) -> Seq<char>
    decreases s.len(),
{
    if s.len() > 0 && s.last() == c {
        trim_end_char(s.drop_last(), c)
    } else {
        s
    }
}

/// `str::trim_end_matches` with a string: every trailing copy of `t`
/// removed (a non-empty `t`).
pub open spec fn trim_end_text(s: Seq<char>, t: Seq<char>) -> Seq<char>
    decreases s.len(),
{
    if t.len() > 0 && ends_with(s, t) {
        trim_end_text(s.subrange(0, s.len() - t.len()), t)
    } else {
        s
    }
}

/// Length of `s[..hi]` once every trailing `t` is removed.
pub fn trim_end_text_len(s: &[char], hi: usize, t: &[char]) -> (r: usize)
    requires
        hi <= s@.len(),
    ensures
        r <= hi,
        s@.subrange(0, r as int) == trim_end_text(s@.subrange(0, hi as int), t@),
{
    let mut e = hi;
    while t.len() > 0 && e >= t.len() && same_chars(s, e - t.len(), e, t, 0, t.len())
        invariant
            e <= hi <= s@.len(),
            trim_end_text(s@.subrange(0, e as int), t@) == trim_end_text(s@.subrange(0, hi as int), t@),
        decreases e,
    {
        proof {
            let u = s@.subrange(0, e as int);
            assert(t@.subrange(0, t@.len() as int) =~= t@);
            assert(u.subrange(u.len() - t@.len(), u.len() as int) =~= s@.subrange(e - t@.len(), e as int));
            assert(u.subrange(0, u.len() - t@.len()) =~= s@.subrange(0, e - t@.len()));
        }
        e = e - t.len();
    }
    proof {
        let u = s@.subrange(0, e as int);
        if t@.len() > 0 && ends_with(u, t@) {
            assert(t@.subrange(0, t@.len() as int) =~= t@);
            assert(u.subrange(u.len() - t@.len(), u.len() as int) =~= s@.subrange(e - t@.len(), e as int));
        }
    }
    e
}

/// Length of `s[..hi]` once every trailing `c` is removed.
pub fn trim_end_char_len(s: &[char], hi: usize, c: char) -> (r: usize)
    requires
        hi <= s@.len(),
    ensures
        r <= hi,
        s@.subrange(0, r as int) == trim_end_char(s@.subrange(0, hi as int), c),
{
    let mut e = hi;
    while e > 0 && s[e - 1] == c
        invariant
            e <= hi <= s@.len(),
            trim_end_char(s@.subrange(0, e as int), c) == trim_end_char(s@.subrange(0, hi as int), c),
        decreases e,
    {
        proof {
            assert(s@.subrange(0, e as int).drop_last() =~= s@.subrange(0, e - 1));
        }
        e = e - 1;
    }
    e
}

} // verus!
