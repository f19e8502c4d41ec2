//! The `.deb` package feed: which files it serves, how its entries are
//! searched and ordered, and what a filename says when the archive cannot
//! be read.

use vstd::prelude::*;

use crate::control::{DebControl, DebPackage, PackageView};
use crate::depends::{DependencyExpr, PackageRef};
use crate::listing::{safe_filename, is_safe_filename, CatalogSpec};
use crate::sort::SortOrder;
use crate::text::{
    chars_of, contains_text, has_sub, lemma_rfind_char, lemma_text_lt_asymmetric,
    lemma_text_lt_irreflexive, lemma_text_lt_total, lemma_text_lt_transitive, lower, lower_chars,
    push_str, rfind_char, rfind_in, same_text, str_less, string_of, text_lt,
    trim_end_text, trim_end_text_len,
};

verus! {

/// The `.deb` feed.
pub struct PackageCatalog;

/// Whether `needle` occurs in the lowercase text.
pub open spec fn found_in(text: Seq<char>, needle: Seq<char>) -> bool {
    has_sub(lower(text), needle)
}

/// Name, filename, version, architecture or description contain the
/// (lowercase) needle, case-blind.
pub open spec fn package_matches(p: PackageView, needle: Seq<char>) -> bool {
    found_in(p.name, needle) || found_in(p.filename, needle) || found_in(p.version, needle)
        || found_in(p.architecture, needle) || match p.description {
        Some(d) => found_in(d, needle),
        None => false,
    }
}

fn text_contains(text: &str, needle: &[char]) -> (r: bool)
    ensures
        r == found_in(text@, needle@),
{
    let low = lower_chars(text);
    contains_text(low.as_slice(), needle)
}

/// Name, then newest version, then architecture.
pub open spec fn package_before(a: PackageView, b: PackageView) -> bool {
    text_lt(a.name, b.name) || (a.name == b.name && (text_lt(b.version, a.version) || (a.version
        == b.version && text_lt(a.architecture, b.architecture))))
}

proof fn lemma_text_facts(x: Seq<char>, y: Seq<char>, z: Seq<char>)
    ensures
        !text_lt(x, x),
        text_lt(x, y) || text_lt(y, x) || x == y,
        text_lt(y, z) || text_lt(z, y) || y == z,
        text_lt(x, z) || text_lt(z, x) || x == z,
        text_lt(x, y) ==> !text_lt(y, x),
        text_lt(y, z) ==> !text_lt(z, y),
        text_lt(x, z) ==> !text_lt(z, x),
        text_lt(x, y) && text_lt(y, z) ==> text_lt(x, z),
        text_lt(z, y) && text_lt(y, x) ==> text_lt(z, x),
{
    lemma_text_lt_irreflexive(x);
    lemma_text_lt_total(x, y);
    lemma_text_lt_total(y, z);
    lemma_text_lt_total(x, z);
    if text_lt(x, y) {
        lemma_text_lt_asymmetric(x, y);
    }
    if text_lt(y, z) {
        lemma_text_lt_asymmetric(y, z);
    }
    if text_lt(x, z) {
        lemma_text_lt_asymmetric(x, z);
    }
    if text_lt(x, y) && text_lt(y, z) {
        lemma_text_lt_transitive(x, y, z);
    }
    if text_lt(z, y) && text_lt(y, x) {
        lemma_text_lt_transitive(z, y, x);
    }
}

/// Whether two texts are equal.


impl SortOrder for DebPackage {
    open spec fn before(a: DebPackage, b: DebPackage) -> bool {
        package_before(a@, b@)
    }

    proof fn lemma_irreflexive(a: DebPackage) {
        lemma_text_lt_irreflexive(a.name@);
        lemma_text_lt_irreflexive(a.version@);
        lemma_text_lt_irreflexive(a.architecture@);
    }

    proof fn lemma_transitive(a: DebPackage, b: DebPackage, c: DebPackage) {
        lemma_text_facts(a.name@, b.name@, c.name@);
        lemma_text_facts(a.version@, b.version@, c.version@);
        lemma_text_facts(a.architecture@, b.architecture@, c.architecture@);
    }

    proof fn lemma_not_before_transitive(a: DebPackage, b: DebPackage, c: DebPackage) {
        lemma_text_facts(a.name@, b.name@, c.name@);
        lemma_text_facts(a.version@, b.version@, c.version@);
        lemma_text_facts(a.architecture@, b.architecture@, c.architecture@);
    }

    fn is_before(&self, other: &DebPackage) -> (r: bool) {
        if str_less(self.name.as_str(), other.name.as_str()) {
            return true;
        }
        if !same_text(self.name.as_str(), other.name.as_str()) {
            return false;
        }
        if str_less(other.version.as_str(), self.version.as_str()) {
            return true;
        }
        if !same_text(self.version.as_str(), other.version.as_str()) {
            return false;
        }
        str_less(self.architecture.as_str(), other.architecture.as_str())
    }
}

impl CatalogSpec for PackageCatalog {
    type Item = DebPackage;

    open spec fn accepts(name: Seq<char>) -> bool {
        safe_filename(name, ".deb"@)
    }

    open spec fn matches_spec(item: DebPackage, needle: Seq<char>) -> bool {
        package_matches(item@, needle)
    }

    /// 512 MiB — covers large -dbg packages.
    open spec fn max_size() -> u64 {
        536870912
    }

    fn max_bytes() -> (r: u64) {
        536870912
    }

    fn is_safe_filename(name: &str) -> (r: bool) {
        is_safe_filename(name, ".deb")
    }

    fn matches(item: &DebPackage, needle: &str) -> (r: bool) {
        let n = chars_of(needle);
        text_contains(item.name.as_str(), n.as_slice()) || text_contains(
            item.filename.as_str(),
            n.as_slice(),
        ) || text_contains(item.version.as_str(), n.as_slice()) || text_contains(
            item.architecture.as_str(),
            n.as_slice(),
        ) || match &item.description {
            Some(d) => text_contains(d.as_str(), n.as_slice()),
            None => false,
        }
    }
}

impl PackageCatalog {
    /// Orders a scanned listing: name, then newest version, then
    /// architecture (stable).
    pub fn sort(packages: &mut Vec<DebPackage>)
        ensures
            crate::sort::is_stable_sort_of(final(packages)@, old(packages)@),
    {
        crate::sort::stable_sort(packages);
    }

    /// The entry for a published file: from its control file when the
    /// archive could be read (`control`), else from its filename.
    pub fn describe(filename: &str, size_bytes: u64, control: Option<&DebControl>) -> (r: DebPackage)
        ensures
            match control {
                Some(c) => r@ == (PackageView {
                    filename: filename@,
                    name: c@.package,
                    version: c@.version,
                    architecture: c@.architecture,
                    size_bytes,
                    download_path: download_path_of(filename@),
                    depends: c@.depends,
                    pre_depends: c@.pre_depends,
                    provides: c@.provides,
                    description: c@.description,
                }),
                None => {
                    let parts = deb_filename_parts(filename@);
                    &&& r@.filename == filename@
                    &&& r@.name == parts.0
                    &&& r@.version == parts.1
                    &&& r@.architecture == parts.2
                    &&& r@.size_bytes == size_bytes
                    &&& r@.download_path == download_path_of(filename@)
                    &&& r@.depends.len() == 0
                    &&& r@.pre_depends.len() == 0
                    &&& r@.provides.len() == 0
                    &&& r@.description is None
                },
            },
    {
        match control {
            Some(c) => DebPackage::from_control(filename, size_bytes, download_path(filename), c),
            None => {
                let (name, version, architecture) = parse_deb_filename(filename);
                let depends: Vec<DependencyExpr> = Vec::new();
                let pre_depends: Vec<DependencyExpr> = Vec::new();
                let provides: Vec<PackageRef> = Vec::new();
                DebPackage {
                    filename: filename.to_owned(),
                    name,
                    version,
                    architecture,
                    size_bytes,
                    download_path: download_path(filename),
                    depends,
                    pre_depends,
                    provides,
                    description: None,
                }
            },
        }
    }
}

/// Service-relative download URL of a package file.
pub open spec fn download_path_of(filename: Seq<char>) -> Seq<char> {
    "/packages/"@ + filename
}

pub fn download_path(filename: &str) -> (r: String)
    ensures
        r@ == download_path_of(filename@),
{
    let mut out = "/packages/".to_string();
    push_str(&mut out, filename);
    out
}

/// Debian pool naming: `{name}_{version}_{arch}.deb` (the name may hold
/// `_` too); with fewer than two `_` the stem is the name and the other
/// parts are `—`.
pub open spec fn deb_filename_parts(filename: Seq<char>) -> (Seq<char>, Seq<char>, Seq<char>) {
    let stem = trim_end_text(filename, ".deb"@);
    match rfind_char(stem, '_', 0, stem.len() as int) {
        None => (stem, "—"@, "—"@),
        Some(j) => match rfind_char(stem, '_', 0, j) {
            None => (stem, "—"@, "—"@),
            Some(k) => (
                stem.subrange(0, k),
                stem.subrange(k + 1, j),
                stem.subrange(j + 1, stem.len() as int),
            ),
        },
    }
}

/// Name, version and architecture from a package filename.
pub fn parse_deb_filename(filename: &str) -> (r: (String, String, String))
    ensures
        (r.0@, r.1@, r.2@) == deb_filename_parts(filename@),
{
    let cs = chars_of(filename);
    let ext = chars_of(".deb");
    let e = trim_end_text_len(cs.as_slice(), cs.len(), ext.as_slice());
    let ghost stem = cs@.subrange(0, e as int);
    proof {
        assert(cs@.subrange(0, cs@.len() as int) =~= cs@);
        lemma_rfind_char(cs@, '_', 0, e as int);
        assert forall|a: int, b: int| 0 <= a <= b <= e implies rfind_char(stem, '_', a, b) == rfind_char(
            cs@,
            '_',
            a,
            b,
        ) by {
            lemma_rfind_prefix(cs@, e as int, a, b);
        }
    }
    let fallback = match rfind_in(cs.as_slice(), '_', 0, e) {
        None => true,
        Some(j) => match rfind_in(cs.as_slice(), '_', 0, j) {
            None => true,
            Some(k) => {
                proof {
                    lemma_rfind_char(cs@, '_', 0, j as int);
                    assert(stem.subrange(0, k as int) =~= cs@.subrange(0, k as int));
                    assert(stem.subrange(k + 1, j as int) =~= cs@.subrange(k + 1, j as int));
                    assert(stem.subrange(j + 1, e as int) =~= cs@.subrange(j + 1, e as int));
                }
                return (
                    string_of(cs.as_slice(), 0, k),
                    string_of(cs.as_slice(), k + 1, j),
                    string_of(cs.as_slice(), j + 1, e),
                );
            },
        },
    };
    (string_of(cs.as_slice(), 0, e), "—".to_string(), "—".to_string())
}

proof fn lemma_rfind_prefix(s: Seq<char>, e: int, a: int, b: int)
    requires
        0 <= a <= b <= e <= s.len(),
    ensures
        rfind_char(s.subrange(0, e), '_', a, b) == rfind_char(s, '_', a, b),
    decreases b - a,
{
    if a < b {
        lemma_rfind_prefix(s, e, a, b - 1);
    }
}

/// A search finds a package exactly when its name, filename, version,
/// architecture or description, lowercased, contains the needle.
pub proof fn lemma_package_search_fields(item: DebPackage, needle: Seq<char>)
    ensures
        <PackageCatalog as CatalogSpec>::matches_spec(item, needle) <==> {
            ||| has_sub(lower(item.name@), needle)
            ||| has_sub(lower(item.filename@), needle)
            ||| has_sub(lower(item.version@), needle)
            ||| has_sub(lower(item.architecture@), needle)
            ||| (item.description matches Some(d) && has_sub(lower(d@), needle))
        },
{
}

} // verus!
