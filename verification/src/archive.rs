//! The `ar` and `tar` layers of a `.deb`: which archives the `ar` reader can
//! walk without panicking, and the reads of members and tar entries, made
//! by the `ar`, `flate2`, `xz2` and `tar` crates.

use std::io::Read;

use vstd::prelude::*;

use vstd::utf8::{decode_utf8, valid_utf8};

use crate::dbc::utf8_text;
use crate::inspect::{Compression, DebError, DebErrorView};
use crate::text::{back_ws, chars_of, is_ws_char};

verus! {

// ---------------------------------------------------------------------------
// Header fields, as `ar` reads them

/// A digit of `radix` (8 or 10): `u64::from_str_radix` takes ASCII `0` to
/// `radix - 1`.
pub open spec fn is_radix_digit(c: char, radix: int) -> bool {
    48 <= (c as int) && (c as int) < 48 + radix
}

/// The value of the digits `t[0..n]` in `radix`.
pub open spec fn radix_value(t: Seq<char>, n: int, radix: int) -> int
    decreases n,
{
    if n <= 0 {
        0
    } else {
        radix_value(t, n - 1, radix) * radix + (t[n - 1] as int - 48)
    }
}

/// `u64::from_str_radix(t, radix)`: an optional `+`, then one or more
/// digits, and a value that fits in a `u64`.
pub open spec fn parse_radix(t: Seq<char>, radix: int) -> Option<int> {
    let body = radix_body(t);
    if body.len() > 0 && all_radix_digits(body, radix) && radix_value(body, body.len() as int, radix)
        <= u64::MAX {
        Some(radix_value(body, body.len() as int, radix))
    } else {
        None
    }
}

/// The digits after an optional leading `+`.
pub open spec fn radix_body(t: Seq<char>) -> Seq<char> {
    if t.len() > 0 && t[0] == '+' {
        t.drop_first()
    } else {
        t
    }
}

pub open spec fn all_radix_digits(b: Seq<char>, radix: int) -> bool {
    forall|i: int| 0 <= i < b.len() ==> is_radix_digit(#[trigger] b[i], radix)
}

/// `ar`'s `parse_number` (and, with `permit_empty`, its
/// `parse_number_permitting_empty`): the field as UTF-8 text, trailing
/// white space trimmed, read by `u64::from_str_radix`; an all-blank field
/// reads as 0 when `permit_empty`.
pub open spec fn parse_field(f: Seq<u8>, radix: int, permit_empty: bool) -> Option<int> {
    if valid_utf8(f) {
        let d = decode_utf8(f);
        let t = d.subrange(0, back_ws(d, 0, d.len() as int));
        if permit_empty && t.len() == 0 {
            Some(0)
        } else {
            parse_radix(t, radix)
        }
    } else {
        None
    }
}

pub open spec fn spaces(h: Seq<u8>, a: int, b: int) -> bool {
    forall|j: int| a <= j < b ==> h[j] == 32u8
}

/// End of the identifier field `h[0..j]` once trailing spaces are dropped.
pub open spec fn ident_end(h: Seq<u8>, j: int) -> int
    decreases j,
{
    if j > 0 && h[j - 1] == 32u8 {
        ident_end(h, j - 1)
    } else {
        j
    }
}

/// The identifier field, spaces trimmed, ends with `/` (a GNU short name).
pub open spec fn ends_slash(h: Seq<u8>) -> bool {
    ident_end(h, 16) > 0 && h[ident_end(h, 16) - 1] == 47u8
}

/// The timestamp, owner, group and mode fields read without error; a GNU
/// archive allows blank owner and group fields.
pub open spec fn other_fields_ok(h: Seq<u8>, gnu: bool) -> bool {
    &&& parse_field(h.subrange(16, 28), 10, false) is Some
    &&& parse_field(h.subrange(28, 34), 10, gnu) is Some
    &&& parse_field(h.subrange(34, 40), 10, gnu) is Some
    &&& parse_field(h.subrange(40, 48), 8, false) is Some
}

/// End of `s[0..j]` once trailing NUL bytes are dropped.
pub open spec fn nul_end(s: Seq<u8>, j: int) -> int
    decreases j,
{
    if j > 0 && s[j - 1] == 0u8 {
        nul_end(s, j - 1)
    } else {
        j
    }
}

/// `__.SYMDEF` and `__.SYMDEF SORTED`, the BSD symbol tables `ar` skips.
pub open spec fn bsd_symbol_table(id: Seq<u8>) -> bool {
    id == seq![95u8, 95u8, 46u8, 83u8, 89u8, 77u8, 68u8, 69u8, 70u8] || id == seq![
        95u8,
        95u8,
        46u8,
        83u8,
        89u8,
        77u8,
        68u8,
        69u8,
        70u8,
        32u8,
        83u8,
        79u8,
        82u8,
        84u8,
        69u8,
        68u8,
    ]
}

pub open spec fn min(a: int, b: int) -> int {
    if a < b {
        a
    } else {
        b
    }
}

/// What reading one header leads to.
pub enum WalkStep {
    /// The reader stops: at an error (`true`), or where the library will
    /// not let it go on (`false`).
    Stop(bool),
    /// The next header is read at `pos`, in this variant, with a GNU name
    /// table of `table` bytes, after a padding byte when `padding`;
    /// `counted` when the member is handed out (not a symbol or name
    /// table).
    Next { pos: int, variant: int, table: int, padding: bool, counted: bool },
}

/// The header at `p`, of size `size`, read in variant `var` (0 common, 1
/// GNU, 2 BSD) with a GNU name table of `table` bytes:
/// - `/` is the GNU symbol table and `//` the GNU name table, both skipped;
/// - `/N` is a GNU long name, an offset into the name table (the one
///   panic: `N` past the table);
/// - a name ending in `/` is a GNU short name;
/// - the timestamp, owner, group and mode fields are read next;
/// - `#1/N` is a BSD long name whose `N` bytes follow the header, and
///   `__.SYMDEF` (`SORTED`) is a BSD symbol table, skipped.
/// A name table or BSD long name longer than the bytes that remain, which
/// the reader would allocate before reading, is refused as a memory bound.
pub open spec fn walk_step(b: Seq<u8>, p: int, var: int, table: int, size: int) -> WalkStep {
    let h = b.subrange(p, p + 60);
    let rem = b.len() - (p + 60);
    let slash = var != 2 && h[0] == 47u8;
    if slash && spaces(h, 1, 16) {
        WalkStep::Next { pos: p + 60 + min(size, rem), variant: 1, table, padding: size % 2 == 1, counted: false }
    } else if slash && h[1] == 47u8 && spaces(h, 2, 16) {
        if size <= rem {
            WalkStep::Next { pos: p + 60 + size, variant: 1, table: size, padding: size % 2 == 1, counted: false }
        } else {
            WalkStep::Stop(false)
        }
    } else {
        let v = if slash || (var != 2 && ends_slash(h)) {
            1
        } else {
            var
        };
        let index = if slash {
            parse_field(h.subrange(1, 16), 10, false)
        } else {
            Some(0)
        };
        match index {
            None => WalkStep::Stop(true),
            Some(start) => if start > table {
                WalkStep::Stop(false)
            } else if !other_fields_ok(h, v == 1) {
                WalkStep::Stop(true)
            } else if v != 1 && h[0] == 35u8 && h[1] == 49u8 && h[2] == 47u8 {
                match parse_field(h.subrange(3, 16), 10, false) {
                    None => WalkStep::Stop(true),
                    Some(pl) => if size < pl {
                        WalkStep::Stop(true)
                    } else if pl > rem {
                        WalkStep::Stop(false)
                    } else {
                        let ds = p + 60 + pl;
                        let size2 = size - pl;
                        WalkStep::Next {
                            pos: ds + min(size2, b.len() - ds),
                            variant: 2,
                            table,
                            padding: size2 % 2 == 1,
                            counted: !bsd_symbol_table(
                                b.subrange(p + 60, p + 60 + nul_end(b.subrange(p + 60, ds), pl)),
                            ),
                        }
                    },
                }
            } else {
                WalkStep::Next { pos: p + 60 + min(size, rem), variant: v, table, padding: size % 2 == 1, counted: true }
            },
        }
    }
}

/// Reading `k` more members with `ar::Archive::next_entry`, from `pos` on,
/// in variant `var`, with a GNU name table of `table` bytes read so far,
/// after a padding byte when `padding`, neither panics nor asks for more
/// memory than the archive holds (see [`walk_step`]). The reader stops at
/// its first error, at the end, or once `k` members are out.
pub open spec fn ar_walk(b: Seq<u8>, pos: int, var: int, table: int, padding: bool, k: int) -> bool
    decreases b.len() - pos,
{
    if k <= 0 || pos < 0 {
        true
    } else if padding && pos < b.len() && b[pos] != 10u8 {
        true
    } else {
        let p = if padding && pos < b.len() {
            pos + 1
        } else {
            pos
        };
        if b.len() - p < 60 {
            true
        } else {
            match parse_field(b.subrange(p + 48, p + 58), 10, false) {
                None => true,
                Some(size) => if size < 0 {
                    true
                } else {
                    match walk_step(b, p, var, table, size) {
                        WalkStep::Stop(ok) => ok,
                        WalkStep::Next { pos: np, variant, table: t, padding: pad, counted } => if np
                            <= p || np > b.len() {
                            true
                        } else if counted {
                            k == 1 || ar_walk(b, np, variant, t, pad, k - 1)
                        } else {
                            ar_walk(b, np, variant, t, pad, k)
                        },
                    }
                },
            }
        }
    }
}

/// The `ar` global header.
pub open spec fn ar_magic(b: Seq<u8>) -> bool {
    b.len() >= 8 && b.subrange(0, 8) == seq![33u8, 60u8, 97u8, 114u8, 99u8, 104u8, 62u8, 10u8]
}

/// Reading the first `k` members of `b` neither panics nor allocates past
/// the archive: without the global header the reader stops at once.
pub open spec fn ar_reads_safely(b: Seq<u8>, k: int) -> bool {
    ar_magic(b) ==> ar_walk(b, 8, 0, 0, false, k)
}

proof fn lemma_radix_value_mono(t: Seq<char>, i: int, n: int, radix: int)
    requires
        0 <= i <= n <= t.len(),
        1 <= radix,
        forall|j: int| 0 <= j < n ==> is_radix_digit(#[trigger] t[j], radix),
    ensures
        0 <= radix_value(t, i, radix) <= radix_value(t, n, radix),
    decreases n,
{
    if n > 0 {
        if i < n {
            lemma_radix_value_mono(t, i, n - 1, radix);
        } else {
            lemma_radix_value_mono(t, 0, n - 1, radix);
        }
        let v = radix_value(t, n - 1, radix);
        assert(v * radix >= v) by (nonlinear_arith)
            requires
                v >= 0,
                radix >= 1,
        ;
    }
}

proof fn lemma_not_all_digits(t: Seq<char>, radix: int, i: int)
    requires
        0 <= i < radix_body(t).len(),
        !is_radix_digit(radix_body(t)[i], radix),
    ensures
        parse_radix(t, radix) is None,
{
}

proof fn lemma_too_large(t: Seq<char>, radix: int, n: int)
    requires
        0 <= n <= radix_body(t).len(),
        1 <= radix,
        radix_value(radix_body(t), n, radix) > u64::MAX,
    ensures
        parse_radix(t, radix) is None,
{
    let b = radix_body(t);
    if forall|m: int| 0 <= m < b.len() ==> is_radix_digit(#[trigger] b[m], radix) {
        lemma_radix_value_mono(b, n, b.len() as int, radix);
    }
}

/// Reads the header field `bytes[lo..hi]` as `parse_field` describes.
fn read_field(bytes: &[u8], lo: usize, hi: usize, radix: u64, permit_empty: bool) -> (r: Option<u64>)
    requires
        lo <= hi <= bytes@.len(),
        radix == 8 || radix == 10,
    ensures
        match r {
            Some(v) => parse_field(bytes@.subrange(lo as int, hi as int), radix as int, permit_empty)
                == Some(v as int),
            None => parse_field(bytes@.subrange(lo as int, hi as int), radix as int, permit_empty)
                is None,
        },
{
    let ghost f = bytes@.subrange(lo as int, hi as int);
    let mut field: Vec<u8> = Vec::new();
    let mut i = lo;
    while i < hi
        invariant
            lo <= i <= hi <= bytes@.len(),
            field@ == bytes@.subrange(lo as int, i as int),
        decreases hi - i,
    {
        field.push(bytes[i]);
        proof {
            assert(bytes@.subrange(lo as int, i + 1) =~= bytes@.subrange(lo as int, i as int).push(
                bytes@[i as int],
            ));
        }
        i = i + 1;
    }
    let text = match utf8_text(field.as_slice()) {
        Ok(t) => t,
        Err(_) => return None,
    };
    let d = chars_of(text.as_str());
    let ghost dv = decode_utf8(f);
    let mut e = d.len();
    while e > 0 && is_ws_char(d[e - 1])
        invariant
            e <= d@.len(),
            d@ == dv,
            back_ws(dv, 0, e as int) == back_ws(dv, 0, dv.len() as int),
        decreases e,
    {
        e = e - 1;
    }
    let ghost t = dv.subrange(0, e as int);
    if permit_empty && e == 0 {
        return Some(0);
    }
    let start: usize = if e > 0 && d[0] == '+' {
        1
    } else {
        0
    };
    let ghost body = if t.len() > 0 && t[0] == '+' {
        t.drop_first()
    } else {
        t
    };
    assert(body =~= t.subrange(start as int, t.len() as int));
    if start == e {
        return None;
    }
    assert(parse_field(f, radix as int, permit_empty) == parse_radix(t, radix as int));
    let mut val: u64 = 0;
    let mut j = start;
    while j < e
        invariant
            start <= j <= e <= d@.len(),
            d@ == dv,
            t == dv.subrange(0, e as int),
            body == t.subrange(start as int, t.len() as int),
            radix == 8 || radix == 10,
            forall|m: int| 0 <= m < j - start ==> is_radix_digit(#[trigger] body[m], radix as int),
            val == radix_value(body, j - start, radix as int),
            body.len() > 0,
            f == bytes@.subrange(lo as int, hi as int),
            parse_field(f, radix as int, permit_empty) == parse_radix(t, radix as int),
            body == (if t.len() > 0 && t[0] == '+' {
                t.drop_first()
            } else {
                t
            }),
        decreases e - j,
    {
        let c = d[j];
        assert(body[j - start] == c);
        let dv_opt = digit_of(c, radix);
        if dv_opt.is_none() {
            proof {
                assert(!is_radix_digit(body[j - start], radix as int));
                lemma_not_all_digits(t, radix as int, j - start);
            }
            return None;
        }
        let digit = dv_opt.unwrap();
        assert(is_radix_digit(body[j - start], radix as int));
        proof {
            assert(forall|m: int| 0 <= m < j - start + 1 ==> is_radix_digit(#[trigger] body[m], radix as int));
        }
        let next = match val.checked_mul(radix) {
            Some(m) => m.checked_add(digit),
            None => None,
        };
        match next {
            Some(n) => {
                val = n;
            },
            None => {
                proof {
                    assert(radix_value(body, j - start + 1, radix as int) > u64::MAX);
                    if forall|m: int| 0 <= m < body.len() ==> is_radix_digit(#[trigger] body[m], radix as int) {
                        lemma_radix_value_mono(body, j - start + 1, body.len() as int, radix as int);
                    }
                    lemma_too_large(t, radix as int, j - start + 1);
                }
                return None;
            },
        }
        j = j + 1;
    }
    Some(val)
}

/// The value of `c` as a digit of `radix` (8 or 10).
fn digit_of(c: char, radix: u64) -> (r: Option<u64>)
    requires
        radix == 8 || radix == 10,
    ensures
        r is Some <==> is_radix_digit(c, radix as int),
        r matches Some(d) ==> d as int == c as int - 48 && d < radix,
{
    let d: u64 = if c == '0' {
        0
    } else if c == '1' {
        1
    } else if c == '2' {
        2
    } else if c == '3' {
        3
    } else if c == '4' {
        4
    } else if c == '5' {
        5
    } else if c == '6' {
        6
    } else if c == '7' {
        7
    } else if c == '8' {
        8
    } else if c == '9' {
        9
    } else {
        return None;
    };
    if d < radix {
        Some(d)
    } else {
        None
    }
}

fn all_spaces(b: &[u8], lo: usize, hi: usize) -> (r: bool)
    requires
        lo <= hi <= b@.len(),
    ensures
        r == forall|j: int| lo <= j < hi ==> b@[j] == 32u8,
{
    let mut j = lo;
    while j < hi
        invariant
            lo <= j <= hi <= b@.len(),
            forall|i: int| lo <= i < j ==> b@[i] == 32u8,
        decreases hi - j,
    {
        if b[j] != 32 {
            return false;
        }
        j = j + 1;
    }
    true
}

/// Whether the identifier field of the header at `p` ends with `/` once
/// trailing spaces are dropped.
fn ident_ends_slash(b: &[u8], p: usize) -> (r: bool)
    requires
        p + 60 <= b@.len(),
    ensures
        r == ends_slash(b@.subrange(p as int, p + 60)),
{
    let ghost h = b@.subrange(p as int, p + 60);
    let blen = b.len();
    let mut j: usize = 16;
    while j > 0 && b[p + j - 1] == 32
        invariant
            j <= 16,
            blen == b@.len(),
            p + 60 <= b@.len(),
            h == b@.subrange(p as int, p + 60),
            ident_end(h, j as int) == ident_end(h, 16),
        decreases j,
    {
        assert(h[j - 1] == b@[p + j - 1]);
        j = j - 1;
    }
    if j > 0 {
        assert(h[j - 1] == b@[p + j - 1]);
    }
    j > 0 && b[p + j - 1] == 47
}

/// Whether the BSD name `b[a..a + n]`, trailing NULs dropped, names a BSD
/// symbol table.
fn names_bsd_symbol_table(b: &[u8], a: usize, n: usize) -> (r: bool)
    requires
        a + n <= b@.len(),
    ensures
        r == bsd_symbol_table(b@.subrange(a as int, a + nul_end(b@.subrange(a as int, a + n), n as int))),
{
    let ghost s = b@.subrange(a as int, a + n);
    let blen = b.len();
    let mut j = n;
    while j > 0 && b[a + j - 1] == 0
        invariant
            j <= n,
            blen == b@.len(),
            a + n <= b@.len(),
            s == b@.subrange(a as int, a + n),
            nul_end(s, j as int) == nul_end(s, n as int),
        decreases j,
    {
        assert(s[j - 1] == b@[a + j - 1]);
        j = j - 1;
    }
    if j > 0 {
        assert(s[j - 1] == b@[a + j - 1]);
    }
    let ghost id = b@.subrange(a as int, a + j);
    let short: [u8; 9] = [95, 95, 46, 83, 89, 77, 68, 69, 70];
    let long: [u8; 16] = [95, 95, 46, 83, 89, 77, 68, 69, 70, 32, 83, 79, 82, 84, 69, 68];
    let ghost sv = seq![95u8, 95u8, 46u8, 83u8, 89u8, 77u8, 68u8, 69u8, 70u8];
    let ghost lv = seq![95u8, 95u8, 46u8, 83u8, 89u8, 77u8, 68u8, 69u8, 70u8, 32u8, 83u8, 79u8, 82u8, 84u8, 69u8, 68u8];
    assert(short@ =~= sv);
    assert(long@ =~= lv);
    let is_short = j == 9 && same_bytes(b, a, &short);
    let is_long = j == 16 && same_bytes(b, a, &long);
    proof {
        if j == 9 {
            assert(is_short == (id =~= sv));
        }
        if j == 16 {
            assert(is_long == (id =~= lv));
        }
        if id == sv {
            assert(id.len() == 9);
        }
        if id == lv {
            assert(id.len() == 16);
        }
    }
    is_short || is_long
}

fn same_bytes(b: &[u8], a: usize, lit: &[u8]) -> (r: bool)
    requires
        a + lit@.len() <= b@.len(),
    ensures
        r == (b@.subrange(a as int, a + lit@.len()) =~= lit@),
{
    let blen = b.len();
    let mut i: usize = 0;
    while i < lit.len()
        invariant
            i <= lit@.len(),
            blen == b@.len(),
            a + lit@.len() <= b@.len(),
            forall|m: int| 0 <= m < i ==> b@[a + m] == lit@[m],
        decreases lit@.len() - i,
    {
        if b[a + i] != lit[i] {
            proof {
                assert(b@.subrange(a as int, a + lit@.len())[i as int] != lit@[i as int]);
            }
            return false;
        }
        i = i + 1;
    }
    true
}

/// One header step, as [`walk_step`] describes it.
pub enum Step {
    Stop(bool),
    Next { pos: usize, variant: u8, table: u64, padding: bool, counted: bool },
}

pub open spec fn step_view(s: Step) -> WalkStep {
    match s {
        Step::Stop(ok) => WalkStep::Stop(ok),
        Step::Next { pos, variant, table, padding, counted } => WalkStep::Next {
            pos: pos as int,
            variant: variant as int,
            table: table as int,
            padding,
            counted,
        },
    }
}

fn fields_ok(bytes: &[u8], p: usize, gnu: bool) -> (r: bool)
    requires
        p + 60 <= bytes@.len(),
    ensures
        r == other_fields_ok(bytes@.subrange(p as int, p + 60), gnu),
{
    let _len = bytes.len();
    let ghost h = bytes@.subrange(p as int, p + 60);
    assert(bytes@.subrange(p + 16, p + 28) =~= h.subrange(16, 28));
    assert(bytes@.subrange(p + 28, p + 34) =~= h.subrange(28, 34));
    assert(bytes@.subrange(p + 34, p + 40) =~= h.subrange(34, 40));
    assert(bytes@.subrange(p + 40, p + 48) =~= h.subrange(40, 48));
    read_field(bytes, p + 16, p + 28, 10, false).is_some() && read_field(bytes, p + 28, p + 34, 10, gnu)
        .is_some() && read_field(bytes, p + 34, p + 40, 10, gnu).is_some() && read_field(
        bytes,
        p + 40,
        p + 48,
        8,
        false,
    ).is_some()
}

/// The step for the header at `p` of size `size`.
fn header_step(bytes: &[u8], p: usize, var: u8, table: u64, size: u64) -> (r: Step)
    requires
        p + 60 <= bytes@.len(),
        var <= 2,
    ensures
        step_view(r) == walk_step(bytes@, p as int, var as int, table as int, size as int),
        r matches Step::Next { pos, variant, .. } ==> p + 60 <= pos <= bytes@.len() && variant <= 2,
{
    let len = bytes.len();
    let ghost h = bytes@.subrange(p as int, p + 60);
    let rem = len - p - 60;
    assert(h[0] == bytes@[p as int] && h[1] == bytes@[p + 1] && h[2] == bytes@[p + 2]);
    let slash = var != 2 && bytes[p] == 47;
    let sym = all_spaces(bytes, p + 1, p + 16);
    let names = bytes[p + 1] == 47 && all_spaces(bytes, p + 2, p + 16);
    proof {
        assert forall|j: int| 1 <= j < 16 implies h[j] == bytes@[p + j] by {}
        if sym {
            assert forall|j: int| 1 <= j < 16 implies h[j] == 32u8 by {
                assert(bytes@[p + j] == 32u8);
            }
        } else {
            let w = choose|w: int| p + 1 <= w < p + 16 && bytes@[w] != 32u8;
            assert(h[w - p] != 32u8);
        }
        if names {
            assert forall|j: int| 2 <= j < 16 implies h[j] == 32u8 by {
                assert(bytes@[p + j] == 32u8);
            }
        } else if bytes[p + 1] == 47 {
            let w = choose|w: int| p + 2 <= w < p + 16 && bytes@[w] != 32u8;
            assert(h[w - p] != 32u8);
        }
        assert(sym == spaces(h, 1, 16));
        assert(names == (h[1] == 47u8 && spaces(h, 2, 16)));
    }
    if slash && sym {
        let skip: usize = if size > rem as u64 {
            rem
        } else {
            size as usize
        };
        return Step::Next { pos: p + 60 + skip, variant: 1, table, padding: size % 2 == 1, counted: false };
    }
    if slash && names {
        if size > rem as u64 {
            return Step::Stop(false);
        }
        return Step::Next {
            pos: p + 60 + size as usize,
            variant: 1,
            table: size,
            padding: size % 2 == 1,
            counted: false,
        };
    }
    if slash {
        assert(bytes@.subrange(p + 1, p + 16) =~= h.subrange(1, 16));
        match read_field(bytes, p + 1, p + 16, 10, false) {
            None => return Step::Stop(true),
            Some(start) => {
                if start > table {
                    return Step::Stop(false);
                }
            },
        }
    }
    let v: u8 = if slash || (var != 2 && ident_ends_slash(bytes, p)) {
        1
    } else {
        var
    };
    if !fields_ok(bytes, p, v == 1) {
        return Step::Stop(true);
    }
    if v != 1 && bytes[p] == 35 && bytes[p + 1] == 49 && bytes[p + 2] == 47 {
        assert(bytes@.subrange(p + 3, p + 16) =~= h.subrange(3, 16));
        let pl = match read_field(bytes, p + 3, p + 16, 10, false) {
            None => return Step::Stop(true),
            Some(x) => x,
        };
        if size < pl {
            return Step::Stop(true);
        }
        if pl > rem as u64 {
            return Step::Stop(false);
        }
        let ds = p + 60 + pl as usize;
        let size2 = size - pl;
        let skip: usize = if size2 > (len - ds) as u64 {
            len - ds
        } else {
            size2 as usize
        };
        assert(bytes@.subrange(p + 60, ds as int) =~= bytes@.subrange(p + 60, p + 60 + pl));
        let counted = !names_bsd_symbol_table(bytes, p + 60, pl as usize);
        return Step::Next { pos: ds + skip, variant: 2, table, padding: size2 % 2 == 1, counted };
    }
    let skip: usize = if size > rem as u64 {
        rem
    } else {
        size as usize
    };
    Step::Next { pos: p + 60 + skip, variant: v, table, padding: size % 2 == 1, counted: true }
}

/// Whether reading the first `k` members of `bytes` neither panics nor
/// allocates past the archive ([`ar_reads_safely`]).
pub fn check_reads(bytes: &[u8], k: usize) -> (ok: bool)
    ensures
        ok == ar_reads_safely(bytes@, k as int),
{
    let len = bytes.len();
    if len < 8 {
        return true;
    }
    let is_ar = bytes[0] == 33 && bytes[1] == 60 && bytes[2] == 97 && bytes[3] == 114 && bytes[4]
        == 99 && bytes[5] == 104 && bytes[6] == 62 && bytes[7] == 10;
    let ghost magic = seq![33u8, 60u8, 97u8, 114u8, 99u8, 104u8, 62u8, 10u8];
    if !is_ar {
        proof {
            let g = bytes@.subrange(0, 8);
            if g == magic {
                assert(g[0] == bytes@[0] && g[1] == bytes@[1] && g[2] == bytes@[2] && g[3] == bytes@[3]);
                assert(g[4] == bytes@[4] && g[5] == bytes@[5] && g[6] == bytes@[6] && g[7] == bytes@[7]);
                assert(magic[0] == 33u8 && magic[1] == 60u8 && magic[2] == 97u8 && magic[3] == 114u8);
                assert(magic[4] == 99u8 && magic[5] == 104u8 && magic[6] == 62u8 && magic[7] == 10u8);
            }
        }
        return true;
    }
    assert(bytes@.subrange(0, 8) =~= magic);
    let mut pos: usize = 8;
    let mut var: u8 = 0;
    let mut table: u64 = 0;
    let mut padding = false;
    let mut left = k;
    loop
        invariant
            pos <= len,
            len == bytes@.len(),
            var <= 2,
            ar_magic(bytes@),
            ar_walk(bytes@, pos as int, var as int, table as int, padding, left as int) == ar_walk(
                bytes@,
                8,
                0,
                0,
                false,
                k as int,
            ),
        decreases len - pos,
    {
        if left == 0 {
            return true;
        }
        if padding && pos < len && bytes[pos] != 10 {
            return true;
        }
        let p = if padding && pos < len {
            pos + 1
        } else {
            pos
        };
        if len - p < 60 {
            return true;
        }
        let size = match read_field(bytes, p + 48, p + 58, 10, false) {
            Some(s) => s,
            None => return true,
        };
        match header_step(bytes, p, var, table, size) {
            Step::Stop(ok) => {
                return ok;
            },
            Step::Next { pos: np, variant, table: t, padding: pad, counted } => {
                if counted {
                    if left == 1 {
                        return true;
                    }
                    left = left - 1;
                }
                pos = np;
                var = variant;
                table = t;
                padding = pad;
            },
        }
    }
}

// ---------------------------------------------------------------------------
// The reads

/// One member of an `ar` archive: its identifier and its data.
pub struct ArMember {
    pub identifier: Vec<u8>,
    pub data: Vec<u8>,
}

pub open spec fn members_view(v: Seq<ArMember>) -> Seq<(Seq<u8>, Seq<u8>)> {
    v.map_values(|m: ArMember| (m.identifier@, m.data@))
}

pub open spec fn strings_view(v: Seq<String>) -> Seq<Seq<char>> {
    v.map_values(|s: String| s@)
}

pub open spec fn opt_string_view(o: Option<String>) -> Option<Seq<char>> {
    match o {
        Some(s) => Some(s@),
        None => None,
    }
}

/// The first `k` members (or fewer) that `ar::Archive::next_entry` hands out
/// for `bytes`, in order, and the text of the error it stopped at, if any.
pub uninterp spec fn ar_entries_of(bytes: Seq<u8>, k: int) -> (Seq<(Seq<u8>, Seq<u8>)>, Option<Seq<char>>);

/// The paths of the entries that `tar::Archive::entries` hands out for the
/// member `data`, decompressed as `c` says (by `flate2` or `xz2`), up to the
/// first error, and that error's text.
pub uninterp spec fn tar_paths_of(c: Compression, data: Seq<u8>) -> (Seq<Seq<char>>, Option<Seq<char>>);

/// The text of entry `k` of that tar stream, read with `read_to_string`.
pub uninterp spec fn tar_text_of(c: Compression, data: Seq<u8>, k: int) -> Result<Seq<char>, DebErrorView>;

/// Calls `ar::Archive::next_entry` over `bytes` until it has handed out
/// `k` members, ends or fails, reading each member's identifier and data.
/// Claimed: the result is a function of the bytes and `k` (a name for it);
/// at most `k` members come out, and at most one per 60 bytes, as each
/// needs a 60-byte header. `requires`: those reads neither panic nor
/// allocate past the archive ([`ar_reads_safely`]).
#[verifier::external_body]
pub(crate) fn ar_members(bytes: &[u8], k: usize) -> (r: (Vec<ArMember>, Option<String>))
    requires
        ar_reads_safely(bytes@, k as int),
    ensures
        (members_view(r.0@), opt_string_view(r.1)) == ar_entries_of(bytes@, k as int),
        r.0@.len() <= k,
        r.0@.len() <= bytes@.len() / 60,
{
    let mut archive = ar::Archive::new(bytes);
    let mut members = Vec::new();
    while members.len() < k {
        let Some(entry) = archive.next_entry() else { break };
        let mut data = Vec::new();
        match entry.and_then(|mut e| e.read_to_end(&mut data).map(|_| e.header().identifier().to_vec())) {
            Ok(identifier) => members.push(ArMember { identifier, data }),
            Err(e) => return (members, Some(e.to_string())),
        }
    }
    (members, None)
}

/// Calls `tar::Archive::entries` over `data`, decompressed by
/// `flate2::read::GzDecoder` or `xz2::read::XzDecoder` as `c` says, and
/// `Entry::path` on each entry. Claimed: the result is a function of `c`
/// and the bytes (a name for it).
#[verifier::external_body]
pub(crate) fn tar_paths(c: &Compression, data: &[u8]) -> (r: (Vec<String>, Option<String>))
    requires
        *c != Compression::Zstd,
    ensures
        (strings_view(r.0@), opt_string_view(r.1)) == tar_paths_of(*c, data@),
{
    let reader: Box<dyn Read + '_> = match c {
        Compression::Gzip => Box::new(flate2::read::GzDecoder::new(data)),
        Compression::Xz => Box::new(xz2::read::XzDecoder::new(data)),
        _ => Box::new(data),
    };
    let mut archive = tar::Archive::new(reader);
    let mut paths = Vec::new();
    let entries = match archive.entries() { Ok(es) => es, Err(e) => return (paths, Some(e.to_string())) };
    for entry in entries {
        match entry.and_then(|e| e.path().map(|p| p.to_string_lossy().into_owned())) {
            Ok(p) => paths.push(p),
            Err(e) => return (paths, Some(e.to_string())),
        }
    }
    (paths, None)
}

/// Calls `tar::Archive::entries` over `data` decompressed as `c` says, and
/// `read_to_string` on entry `k`. Claimed: the result is a function of `c`,
/// the bytes and `k` (a name for it); an entry error is an archive error
/// and a read error an I/O error. `requires`: entry `k` is one the listing
/// of paths reached, so the same walk reaches it again.
#[verifier::external_body]
pub(crate) fn tar_entry_text(c: &Compression, data: &[u8], k: usize) -> (r: Result<String, DebError>)
    requires
        *c != Compression::Zstd,
        (k as int) < tar_paths_of(*c, data@).0.len(),
    ensures
        match r {
            Ok(t) => tar_text_of(*c, data@, k as int) == Ok::<Seq<char>, DebErrorView>(t@),
            Err(e) => tar_text_of(*c, data@, k as int) == Err::<Seq<char>, DebErrorView>(e@),
        },
{
    let reader: Box<dyn Read + '_> = match c {
        Compression::Gzip => Box::new(flate2::read::GzDecoder::new(data)),
        Compression::Xz => Box::new(xz2::read::XzDecoder::new(data)),
        _ => Box::new(data),
    };
    let mut archive = tar::Archive::new(reader);
    let archive_error = |e: std::io::Error| DebError::Archive(e.to_string());
    let mut entry = archive.entries().map_err(archive_error)?.nth(k).unwrap().map_err(archive_error)?;
    let mut text = String::new();
    entry.read_to_string(&mut text).map_err(|e| DebError::Io(e.to_string()))?;
    Ok(text)
}

} // verus!
