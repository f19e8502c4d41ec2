//! What the package-index home page shows: URL encoding, the sign-in and
//! pagination links, the row ranges and the table rows.

use vstd::prelude::*;
use vstd::string::StringSliceAdditionalSpecFns;

use crate::control::DebPackage;
use crate::dbc::{DbcFile, VssFile};
use crate::listing::Page;
use crate::text::{digit_char, push_char, push_decimal, push_str, trim_end_char, trim_end_char_len, chars_of, string_of, decimal};

verus! {

/// RFC 3986 unreserved bytes: ASCII letters, digits, `-`, `_`, `.`, `~`.
pub open spec fn unreserved(b: u8) -> bool {
    (65 <= b && b <= 90) || (97 <= b && b <= 122) || (48 <= b && b <= 57) || b == 45 || b == 95
        || b == 46 || b == 126
}

/// An upper-case hexadecimal digit for `d < 16`.
pub open spec fn hex_char(d: int) -> char {
    if d < 10 {
        digit_char(d)
    } else if d == 10 {
        'A'
    } else if d == 11 {
        'B'
    } else if d == 12 {
        'C'
    } else if d == 13 {
        'D'
    } else if d == 14 {
        'E'
    } else {
        'F'
    }
}

/// One byte, percent-encoded: itself when unreserved, else `%XX`.
pub open spec fn encode_byte(b: u8) -> Seq<char> {
    if unreserved(b) {
        seq![b as char]
    } else {
        seq!['%', hex_char(b as int / 16), hex_char(b as int % 16)]
    }
}

/// The bytes `bs`, percent-encoded one by one.
pub open spec fn percent_encoded(bs: Seq<u8>) -> Seq<char>
    decreases bs.len(),
{
    if bs.len() == 0 {
        seq![]
    } else {
        percent_encoded(bs.drop_last()) + encode_byte(bs.last())
    }
}

/// The UTF-8 bytes of `s`, percent-encoded.
pub open spec fn percent_encoded_text(s: Seq<char>) -> Seq<char> {
    percent_encoded(vstd::utf8::encode_utf8(s))
}

fn hex_digit(d: u8) -> (c: char)
    requires
        d < 16,
    ensures
        c == hex_char(d as int),
{
    if d == 0 {
        '0'
    } else if d == 1 {
        '1'
    } else if d == 2 {
        '2'
    } else if d == 3 {
        '3'
    } else if d == 4 {
        '4'
    } else if d == 5 {
        '5'
    } else if d == 6 {
        '6'
    } else if d == 7 {
        '7'
    } else if d == 8 {
        '8'
    } else if d == 9 {
        '9'
    } else if d == 10 {
        'A'
    } else if d == 11 {
        'B'
    } else if d == 12 {
        'C'
    } else if d == 13 {
        'D'
    } else if d == 14 {
        'E'
    } else {
        'F'
    }
}

/// Percent-encodes every byte of `value` outside the unreserved set.
pub fn percent_encode(value: &str) -> (r: String)
    ensures
        r@ == percent_encoded(value.spec_bytes()),
{
    let bytes = value.as_bytes();
    let mut out = String::new();
    let mut i: usize = 0;
    while i < bytes.len()
        invariant
            i <= bytes@.len(),
            bytes@ == value.spec_bytes(),
            out@ == percent_encoded(bytes@.take(i as int)),
        decreases bytes@.len() - i,
    {
        let b = bytes[i];
        proof {
            assert(bytes@.take(i + 1).drop_last() =~= bytes@.take(i as int));
        }
        let ghost before = out@;
        if (65 <= b && b <= 90) || (97 <= b && b <= 122) || (48 <= b && b <= 57) || b == 45 || b
            == 95 || b == 46 || b == 126 {
            push_char(&mut out, b as char);
        } else {
            push_char(&mut out, '%');
            push_char(&mut out, hex_digit(b / 16));
            push_char(&mut out, hex_digit(b % 16));
        }
        proof {
            assert(out@ =~= before + encode_byte(b));
        }
        i = i + 1;
    }
    proof {
        assert(bytes@.take(bytes@.len() as int) =~= bytes@);
    }
    out
}

/// The identity service's sign-in link, returning to this service.
pub open spec fn sign_in_url_of(identity_base: Seq<char>, public_base: Seq<char>) -> Seq<char> {
    let root = trim_end_char(identity_base, '/');
    root + "/auth/login?app_uri="@ + percent_encoded_text(public_base) + "&redirect_uri="@
        + percent_encoded_text(root + "/auth/callback"@) + "&scope=openid"@
}

/// `{root}/auth/login?app_uri=...&redirect_uri={root}/auth/callback&scope=openid`,
/// with `root` the identity base without trailing slashes.
pub fn sign_in_url(identity_base: &str, public_base: &str) -> (r: String)
    ensures
        r@ == sign_in_url_of(identity_base@, public_base@),
{
    let cs = chars_of(identity_base);
    let e = trim_end_char_len(cs.as_slice(), cs.len(), '/');
    proof {
        assert(cs@.subrange(0, cs@.len() as int) =~= cs@);
    }
    let root = string_of(cs.as_slice(), 0, e);
    let mut callback = root.clone();
    push_str(&mut callback, "/auth/callback");
    let mut out = root.clone();
    push_str(&mut out, "/auth/login?app_uri=");
    let a = percent_encode(public_base);
    push_str(&mut out, a.as_str());
    push_str(&mut out, "&redirect_uri=");
    let c = percent_encode(callback.as_str());
    push_str(&mut out, c.as_str());
    push_str(&mut out, "&scope=openid");
    out
}

/// `/?page={page}&per_page={per_page}`, plus `&q=` and the encoded query
/// when there is one.
pub open spec fn page_href_of(page: u32, per_page: u32, query: Seq<char>) -> Seq<char> {
    let base = "/?page="@ + decimal(page as nat) + "&per_page="@ + decimal(per_page as nat);
    if query.len() == 0 {
        base
    } else {
        base + "&q="@ + percent_encoded_text(query)
    }
}

/// The link to one page of the listing.
pub fn page_href(page: u32, per_page: u32, query: &str) -> (r: String)
    ensures
        r@ == page_href_of(page, per_page, query@),
{
    let mut href = "/?page=".to_string();
    push_decimal(&mut href, page as u64);
    push_str(&mut href, "&per_page=");
    push_decimal(&mut href, per_page as u64);
    if !query.is_empty() {
        push_str(&mut href, "&q=");
        let q = percent_encode(query);
        push_str(&mut href, q.as_str());
    }
    href
}

/// The 1-based positions of the first and last row shown: `(0, rows - 1)`
/// saturated when nothing matched.
pub fn shown_range<T>(page: &Page<T>) -> (r: (usize, usize))
    requires
        page.total > 0 ==> page.page >= 1 && (page.page - 1) * page.per_page <= u32::MAX && (
        page.page - 1) * page.per_page < usize::MAX,
    ensures
        r.0 == if page.total == 0 {
            0
        } else {
            (page.page - 1) * page.per_page + 1
        },
        r.1 == if page.items@.len() == 0 {
            r.0 as int
        } else if r.0 + page.items@.len() - 1 > usize::MAX {
            usize::MAX as int
        } else {
            r.0 + page.items@.len() - 1
        },
{
    let start: usize = if page.total == 0 {
        0
    } else {
        ((page.page - 1) * page.per_page) as usize + 1
    };
    let extra: usize = if page.items.len() == 0 {
        0
    } else {
        page.items.len() - 1
    };
    (start, start.saturating_add(extra))
}

/// The pages the previous and next links lead to: one back (at least 1) and
/// one on (at most `total_pages`).
pub fn nav_pages<T>(page: &Page<T>) -> (r: (u32, u32))
    requires
        page.page < u32::MAX,
    ensures
        r.0 == if page.page <= 1 {
            1
        } else {
            page.page - 1
        },
        r.1 == if page.page + 1 <= page.total_pages {
            page.page + 1
        } else {
            page.total_pages as int
        },
{
    let prev: u32 = if page.page <= 1 {
        1
    } else {
        page.page - 1
    };
    let next: u32 = if page.page + 1 <= page.total_pages {
        page.page + 1
    } else {
        page.total_pages
    };
    (prev, next)
}

/// One row of the package table.
#[derive(Debug)]
pub struct PackageRow {
    pub name: String,
    pub version: String,
    pub architecture: String,
    pub size_label: String,
    pub download_path: String,
    pub filename: String,
}

/// One row of the DBC/VSS schema tables.
#[derive(Debug)]
pub struct SchemaRow {
    pub name: String,
    pub filename: String,
    pub size_label: String,
    pub download_path: String,
}

impl PackageRow {
    /// The row of `p`, with its size already formatted.
    pub fn of_package(p: &DebPackage, size_label: String) -> (r: Self)
        ensures
            r.name@ == p.name@,
            r.version@ == p.version@,
            r.architecture@ == p.architecture@,
            r.size_label == size_label,
            r.download_path@ == p.download_path@,
            r.filename@ == p.filename@,
    {
        PackageRow {
            name: p.name.clone(),
            version: p.version.clone(),
            architecture: p.architecture.clone(),
            size_label,
            download_path: p.download_path.clone(),
            filename: p.filename.clone(),
        }
    }
}

impl SchemaRow {
    /// The row of a CAN dictionary, with its size already formatted.
    pub fn of_dbc(f: &DbcFile, size_label: String) -> (r: Self)
        ensures
            r.name@ == f.name@,
            r.filename@ == f.filename@,
            r.size_label == size_label,
            r.download_path@ == f.download_path@,
    {
        SchemaRow {
            name: f.name.clone(),
            filename: f.filename.clone(),
            size_label,
            download_path: f.download_path.clone(),
        }
    }

    /// The row of a VSS file, with its size already formatted.
    pub fn of_vss(f: &VssFile, size_label: String) -> (r: Self)
        ensures
            r.name@ == f.name@,
            r.filename@ == f.filename@,
            r.size_label == size_label,
            r.download_path@ == f.download_path@,
    {
        SchemaRow {
            name: f.name.clone(),
            filename: f.filename.clone(),
            size_label,
            download_path: f.download_path.clone(),
        }
    }
}

/// One character of HTML text, escaped: `&`, `<`, `>` and `"` become their
/// entities.
pub open spec fn escape_char(c: char) -> Seq<char> {
    if c == '&' {
        seq!['&', 'a', 'm', 'p', ';']
    } else if c == '<' {
        seq!['&', 'l', 't', ';']
    } else if c == '>' {
        seq!['&', 'g', 't', ';']
    } else if c == '"' {
        seq!['&', 'q', 'u', 'o', 't', ';']
    } else {
        seq![c]
    }
}

pub open spec fn escaped(s: Seq<char>) -> Seq<char>
    decreases s.len(),
{
    if s.len() == 0 {
        seq![]
    } else {
        escaped(s.drop_last()) + escape_char(s.last())
    }
}

fn push_chars(out: &mut String, cs: &[char])
    ensures
        final(out)@ == old(out)@ + cs@,
{
    let mut k: usize = 0;
    while k < cs.len()
        invariant
            k <= cs@.len(),
            out@ == old(out)@ + cs@.take(k as int),
        decreases cs@.len() - k,
    {
        proof {
            assert(cs@.take(k + 1) =~= cs@.take(k as int).push(cs@[k as int]));
        }
        push_char(out, cs[k]);
        k = k + 1;
    }
    proof {
        assert(cs@.take(cs@.len() as int) =~= cs@);
    }
}

/// Text escaped for an HTML page: `&`, `<`, `>` and `"` written as entities.
pub fn escape_html(text: &str) -> (r: String)
    ensures
        r@ == escaped(text@),
{
    let cs = chars_of(text);
    let mut out = String::new();
    let mut i: usize = 0;
    while i < cs.len()
        invariant
            i <= cs@.len(),
            cs@ == text@,
            out@ == escaped(cs@.take(i as int)),
        decreases cs@.len() - i,
    {
        let c = cs[i];
        proof {
            assert(cs@.take(i + 1).drop_last() =~= cs@.take(i as int));
        }
        if c == '&' {
            push_chars(&mut out, &['&', 'a', 'm', 'p', ';']);
        } else if c == '<' {
            push_chars(&mut out, &['&', 'l', 't', ';']);
        } else if c == '>' {
            push_chars(&mut out, &['&', 'g', 't', ';']);
        } else if c == '"' {
            push_chars(&mut out, &['&', 'q', 'u', 'o', 't', ';']);
        } else {
            push_char(&mut out, c);
        }
        proof {
            assert(out@ =~= escaped(cs@.take(i + 1)));
        }
        i = i + 1;
    }
    proof {
        assert(cs@.take(cs@.len() as int) =~= cs@);
    }
    out
}

} // verus!
