//! The Sigma Racer `.dbc` schema catalog and the VSS catalog — read-only
//! mirrors of GitHub directories — and the rules of a mirror pass.

use vstd::prelude::*;

use crate::listing::{safe_filename, is_safe_filename, CatalogSpec};
use crate::packages::found_in;
use crate::sort::SortOrder;
use vstd::utf8::{decode_utf8, valid_utf8};
use crate::text::lower;
use crate::text::{
    chars_of, contains_text, ends_with, ends_with_text, has_sub, lemma_text_lt_asymmetric,
    lemma_text_lt_irreflexive, lemma_text_lt_total, lemma_text_lt_transitive, lower_chars, push_str,
    same_text, starts_with, str_less, string_of, text_lt, trim_end_text, trim_end_text_len,
};

verus! {

/// Metadata for a `.dbc` in the schema catalog.
#[derive(Debug, Clone)]
pub struct DbcFile {
    /// On-disk filename.
    pub filename: String,
    /// Filename without the `.dbc` extension.
    pub name: String,
    /// File size in bytes.
    pub size_bytes: u64,
    /// Service-relative download URL.
    pub download_path: String,
}

/// Metadata for a file in the VSS catalog.
#[derive(Debug, Clone)]
pub struct VssFile {
    /// On-disk filename.
    pub filename: String,
    /// Filename without its extension.
    pub name: String,
    /// File size in bytes.
    pub size_bytes: u64,
    /// Service-relative download URL.
    pub download_path: String,
}

/// Abstract schema file.
pub struct SchemaView {
    pub filename: Seq<char>,
    pub name: Seq<char>,
    pub size_bytes: u64,
    pub download_path: Seq<char>,
}

impl View for DbcFile {
    type V = SchemaView;

    open spec fn view(&self) -> SchemaView {
        SchemaView {
            filename: self.filename@,
            name: self.name@,
            size_bytes: self.size_bytes,
            download_path: self.download_path@,
        }
    }
}

impl View for VssFile {
    type V = SchemaView;

    open spec fn view(&self) -> SchemaView {
        SchemaView {
            filename: self.filename@,
            name: self.name@,
            size_bytes: self.size_bytes,
            download_path: self.download_path@,
        }
    }
}

impl DbcFile {
    /// A copy with the same fields.
    pub fn duplicate(&self) -> (r: Self)
        ensures
            r@ == self@,
    {
        DbcFile {
            filename: self.filename.clone(),
            name: self.name.clone(),
            size_bytes: self.size_bytes,
            download_path: self.download_path.clone(),
        }
    }
}

impl VssFile {
    /// A copy with the same fields.
    pub fn duplicate(&self) -> (r: Self)
        ensures
            r@ == self@,
    {
        VssFile {
            filename: self.filename.clone(),
            name: self.name.clone(),
            size_bytes: self.size_bytes,
            download_path: self.download_path.clone(),
        }
    }
}

/// Name, then filename.
pub open spec fn schema_before(a: SchemaView, b: SchemaView) -> bool {
    text_lt(a.name, b.name) || (a.name == b.name && text_lt(a.filename, b.filename))
}

proof fn lemma_pair_facts(x: Seq<char>, y: Seq<char>, z: Seq<char>)
    ensures
        !text_lt(x, x),
        text_lt(x, y) || text_lt(y, x) || x == y,
        text_lt(y, z) || text_lt(z, y) || y == z,
        text_lt(x, z) || text_lt(z, x) || x == z,
        text_lt(x, y) ==> !text_lt(y, x),
        text_lt(y, z) ==> !text_lt(z, y),
        text_lt(x, z) ==> !text_lt(z, x),
        text_lt(x, y) && text_lt(y, z) ==> text_lt(x, z),
        text_lt(z, y) && text_lt(y, x) ==> text_lt(z, x),
{
    lemma_text_lt_irreflexive(x);
    lemma_text_lt_total(x, y);
    lemma_text_lt_total(y, z);
    lemma_text_lt_total(x, z);
    if text_lt(x, y) {
        lemma_text_lt_asymmetric(x, y);
    }
    if text_lt(y, z) {
        lemma_text_lt_asymmetric(y, z);
    }
    if text_lt(x, z) {
        lemma_text_lt_asymmetric(x, z);
    }
    if text_lt(x, y) && text_lt(y, z) {
        lemma_text_lt_transitive(x, y, z);
    }
    if text_lt(z, y) && text_lt(y, x) {
        lemma_text_lt_transitive(z, y, x);
    }
}


impl SortOrder for DbcFile {
    open spec fn before(a: DbcFile, b: DbcFile) -> bool {
        schema_before(a@, b@)
    }

    proof fn lemma_irreflexive(a: DbcFile) {
        lemma_text_lt_irreflexive(a.name@);
        lemma_text_lt_irreflexive(a.filename@);
    }

    proof fn lemma_transitive(a: DbcFile, b: DbcFile, c: DbcFile) {
        lemma_pair_facts(a.name@, b.name@, c.name@);
        lemma_pair_facts(a.filename@, b.filename@, c.filename@);
    }

    proof fn lemma_not_before_transitive(a: DbcFile, b: DbcFile, c: DbcFile) {
        lemma_pair_facts(a.name@, b.name@, c.name@);
        lemma_pair_facts(a.filename@, b.filename@, c.filename@);
    }

    fn is_before(&self, other: &DbcFile) -> (r: bool) {
        if str_less(self.name.as_str(), other.name.as_str()) {
            return true;
        }
        if !same_text(self.name.as_str(), other.name.as_str()) {
            return false;
        }
        str_less(self.filename.as_str(), other.filename.as_str())
    }
}

impl SortOrder for VssFile {
    open spec fn before(a: VssFile, b: VssFile) -> bool {
        schema_before(a@, b@)
    }

    proof fn lemma_irreflexive(a: VssFile) {
        lemma_text_lt_irreflexive(a.name@);
        lemma_text_lt_irreflexive(a.filename@);
    }

    proof fn lemma_transitive(a: VssFile, b: VssFile, c: VssFile) {
        lemma_pair_facts(a.name@, b.name@, c.name@);
        lemma_pair_facts(a.filename@, b.filename@, c.filename@);
    }

    proof fn lemma_not_before_transitive(a: VssFile, b: VssFile, c: VssFile) {
        lemma_pair_facts(a.name@, b.name@, c.name@);
        lemma_pair_facts(a.filename@, b.filename@, c.filename@);
    }

    fn is_before(&self, other: &VssFile) -> (r: bool) {
        if str_less(self.name.as_str(), other.name.as_str()) {
            return true;
        }
        if !same_text(self.name.as_str(), other.name.as_str()) {
            return false;
        }
        str_less(self.filename.as_str(), other.filename.as_str())
    }
}

/// Name or filename contain the needle, case-blind.
pub open spec fn schema_matches(f: SchemaView, needle: Seq<char>) -> bool {
    found_in(f.name, needle) || found_in(f.filename, needle)
}

fn text_contains(text: &str, needle: &[char]) -> (r: bool)
    ensures
        r == found_in(text@, needle@),
{
    let low = lower_chars(text);
    contains_text(low.as_slice(), needle)
}

/// The CAN dictionary catalog.
pub struct DbcCatalog;

/// The VSS catalog (signal tree and CAN-mapping companions).
pub struct VssCatalog;

impl CatalogSpec for DbcCatalog {
    type Item = DbcFile;

    open spec fn accepts(name: Seq<char>) -> bool {
        safe_filename(name, ".dbc"@)
    }

    open spec fn matches_spec(item: DbcFile, needle: Seq<char>) -> bool {
        schema_matches(item@, needle)
    }

    /// 16 MiB.
    open spec fn max_size() -> u64 {
        16777216
    }

    fn max_bytes() -> (r: u64) {
        16777216
    }

    fn is_safe_filename(name: &str) -> (r: bool) {
        is_safe_filename(name, ".dbc")
    }

    fn matches(item: &DbcFile, needle: &str) -> (r: bool) {
        let n = chars_of(needle);
        text_contains(item.name.as_str(), n.as_slice()) || text_contains(
            item.filename.as_str(),
            n.as_slice(),
        )
    }
}

impl CatalogSpec for VssCatalog {
    type Item = VssFile;

    /// The signal tree (`.vspec`) and CAN-mapping documents (`.yaml`).
    open spec fn accepts(name: Seq<char>) -> bool {
        safe_filename(name, ".vspec"@) || safe_filename(name, ".yaml"@)
    }

    open spec fn matches_spec(item: VssFile, needle: Seq<char>) -> bool {
        schema_matches(item@, needle)
    }

    /// 16 MiB.
    open spec fn max_size() -> u64 {
        16777216
    }

    fn max_bytes() -> (r: u64) {
        16777216
    }

    fn is_safe_filename(name: &str) -> (r: bool) {
        is_safe_filename(name, ".vspec") || is_safe_filename(name, ".yaml")
    }

    fn matches(item: &VssFile, needle: &str) -> (r: bool) {
        let n = chars_of(needle);
        text_contains(item.name.as_str(), n.as_slice()) || text_contains(
            item.filename.as_str(),
            n.as_slice(),
        )
    }
}

impl DbcCatalog {
    /// Orders a scanned listing by name, then filename (stable).
    pub fn sort(files: &mut Vec<DbcFile>)
        ensures
            crate::sort::is_stable_sort_of(final(files)@, old(files)@),
    {
        crate::sort::stable_sort(files);
    }

    /// The entry for a published `.dbc`.
    pub fn describe(filename: &str, size_bytes: u64) -> (r: DbcFile)
        ensures
            r@ == (SchemaView {
                filename: filename@,
                name: trim_end_text(filename@, ".dbc"@),
                size_bytes,
                download_path: "/dbc/"@ + filename@,
            }),
    {
        let cs = chars_of(filename);
        let ext = chars_of(".dbc");
        let e = trim_end_text_len(cs.as_slice(), cs.len(), ext.as_slice());
        proof {
            assert(cs@.subrange(0, cs@.len() as int) =~= cs@);
        }
        let mut download_path = "/dbc/".to_string();
        push_str(&mut download_path, filename);
        DbcFile {
            filename: filename.to_owned(),
            name: string_of(cs.as_slice(), 0, e),
            size_bytes,
            download_path,
        }
    }

    /// Content checks of an uploaded dictionary: UTF-8 text (checked by the
    /// caller) with the `VERSION` and `BO_` sections every CAN dictionary
    /// carries.
    pub fn check_text(text: &str) -> (r: Result<(), String>)
        ensures
            match r {
                Ok(()) => has_sub(text@, "VERSION"@) && has_sub(text@, "BO_"@),
                Err(e) => !(has_sub(text@, "VERSION"@) && has_sub(text@, "BO_"@)) && e@
                    == "missing VERSION or BO_ sections"@,
            },
    {
        let t = chars_of(text);
        let v = chars_of("VERSION");
        let b = chars_of("BO_");
        if !contains_text(t.as_slice(), v.as_slice()) || !contains_text(t.as_slice(), b.as_slice()) {
            return Err("missing VERSION or BO_ sections".to_string());
        }
        Ok(())
    }
}

/// Calls `std::str::from_utf8`, which std documents as failing exactly when
/// the bytes are not valid UTF-8. Claimed: success exactly on valid UTF-8,
/// with the decoded text; the error's text is std's own and not stated.
#[verifier::external_body]
pub(crate) fn utf8_text(bytes: &[u8]) -> (r: Result<String, String>)
    ensures
        r is Ok <==> valid_utf8(bytes@),
        r matches Ok(s) ==> s@ == decode_utf8(bytes@),
{
    std::str::from_utf8(bytes).map(|s| s.to_string()).map_err(|e| e.to_string())
}

impl DbcCatalog {
    /// The content checks of a mirrored dictionary: UTF-8 text, then the
    /// sections [`DbcCatalog::check_text`] asks for.
    pub fn validate(content: &[u8]) -> (r: Result<(), String>)
        ensures
            !valid_utf8(content@) ==> (r matches Err(e) && starts_with(e@, "not UTF-8: "@)),
            valid_utf8(content@) ==> match r {
                Ok(()) => has_sub(decode_utf8(content@), "VERSION"@) && has_sub(
                    decode_utf8(content@),
                    "BO_"@,
                ),
                Err(e) => !(has_sub(decode_utf8(content@), "VERSION"@) && has_sub(
                    decode_utf8(content@),
                    "BO_"@,
                )) && e@ == "missing VERSION or BO_ sections"@,
            },
    {
        match utf8_text(content) {
            Ok(text) => DbcCatalog::check_text(text.as_str()),
            Err(m) => {
                let mut e = "not UTF-8: ".to_string();
                let ghost start = e@;
                push_str(&mut e, m.as_str());
                proof {
                    assert(e@.subrange(0, start.len() as int) =~= start);
                }
                Err(e)
            },
        }
    }
}

/// The name of a VSS file: its filename without the `.vspec` or `.yaml`
/// extension.
pub open spec fn vss_name(filename: Seq<char>) -> Seq<char> {
    if ends_with(filename, ".vspec"@) {
        filename.subrange(0, filename.len() - ".vspec"@.len())
    } else if ends_with(filename, ".yaml"@) {
        filename.subrange(0, filename.len() - ".yaml"@.len())
    } else {
        filename
    }
}

impl VssCatalog {
    /// The entry for a mirrored VSS file.
    pub fn describe(filename: &str, size_bytes: u64) -> (r: VssFile)
        ensures
            r@ == (SchemaView {
                filename: filename@,
                name: vss_name(filename@),
                size_bytes,
                download_path: "/vss/"@ + filename@,
            }),
    {
        let cs = chars_of(filename);
        let vspec = chars_of(".vspec");
        let yaml = chars_of(".yaml");
        let end = if ends_with_text(cs.as_slice(), vspec.as_slice()) {
            cs.len() - vspec.len()
        } else if ends_with_text(cs.as_slice(), yaml.as_slice()) {
            cs.len() - yaml.len()
        } else {
            cs.len()
        };
        proof {
            assert(cs@.subrange(0, cs@.len() as int) =~= cs@);
        }
        let mut download_path = "/vss/".to_string();
        push_str(&mut download_path, filename);
        VssFile {
            filename: filename.to_owned(),
            name: string_of(cs.as_slice(), 0, end),
            size_bytes,
            download_path,
        }
    }

    /// Orders a scanned listing by name, then filename (stable).
    pub fn sort(files: &mut Vec<VssFile>)
        ensures
            crate::sort::is_stable_sort_of(final(files)@, old(files)@),
    {
        crate::sort::stable_sort(files);
    }
}

// ---------------------------------------------------------------------------
// Preferred schemas

/// Position of the first file named `name`.
pub open spec fn first_named(files: Seq<SchemaView>, name: Seq<char>) -> Option<int>
    decreases files.len(),
{
    if files.len() == 0 {
        None
    } else {
        match first_named(files.drop_last(), name) {
            Some(i) => Some(i),
            None => if files.last().name == name {
                Some(files.len() - 1)
            } else {
                None
            },
        }
    }
}

/// Position of the first file with filename `filename`.
pub open spec fn first_with_filename(files: Seq<SchemaView>, filename: Seq<char>) -> Option<int>
    decreases files.len(),
{
    if files.len() == 0 {
        None
    } else {
        match first_with_filename(files.drop_last(), filename) {
            Some(i) => Some(i),
            None => if files.last().filename == filename {
                Some(files.len() - 1)
            } else {
                None
            },
        }
    }
}

pub open spec fn dbc_views(v: Seq<DbcFile>) -> Seq<SchemaView> {
    v.map_values(|f: DbcFile| f@)
}

pub open spec fn vss_views(v: Seq<VssFile>) -> Seq<SchemaView> {
    v.map_values(|f: VssFile| f@)
}

/// The Sigma Racer schema, else the M7 draft, else the first entry.
pub open spec fn preferred_dbc(files: Seq<SchemaView>) -> Option<SchemaView> {
    match first_named(files, "sigma-racer"@) {
        Some(i) => Some(files[i]),
        None => match first_named(files, "m7-draft"@) {
            Some(i) => Some(files[i]),
            None => if files.len() > 0 {
                Some(files[0])
            } else {
                None
            },
        },
    }
}

/// The cluster signal tree, else the Sigma Racer mapping, else the first
/// entry.
pub open spec fn preferred_vss(files: Seq<SchemaView>) -> Option<SchemaView> {
    match first_with_filename(files, "sigma-cluster.vspec"@) {
        Some(i) => Some(files[i]),
        None => match first_named(files, "sigma-racer"@) {
            Some(i) => Some(files[i]),
            None => if files.len() > 0 {
                Some(files[0])
            } else {
                None
            },
        },
    }
}

proof fn lemma_first_named(files: Seq<SchemaView>, name: Seq<char>)
    ensures
        first_named(files, name) matches Some(i) ==> 0 <= i < files.len() && files[i].name == name,
    decreases files.len(),
{
    if files.len() > 0 {
        lemma_first_named(files.drop_last(), name);
    }
}

proof fn lemma_first_with_filename(files: Seq<SchemaView>, filename: Seq<char>)
    ensures
        first_with_filename(files, filename) matches Some(i) ==> 0 <= i < files.len() && files[i].filename
            == filename,
    decreases files.len(),
{
    if files.len() > 0 {
        lemma_first_with_filename(files.drop_last(), filename);
    }
}

fn find_named(views: Ghost<Seq<SchemaView>>, names: &Vec<&String>, name: &str) -> (r: Option<usize>)
    requires
        names@.len() == views@.len(),
        forall|i: int| 0 <= i < names@.len() ==> #[trigger] names@[i]@ == views@[i].name,
    ensures
        match r {
            Some(i) => first_named(views@, name@) == Some(i as int),
            None => first_named(views@, name@) is None,
        },
{
    let ghost v = views@;
    let mut i: usize = 0;
    while i < names.len()
        invariant
            i <= names@.len(),
            v == views@,
            names@.len() == v.len(),
            forall|m: int| 0 <= m < names@.len() ==> #[trigger] names@[m]@ == v[m].name,
            first_named(v.take(i as int), name@) is None,
        decreases names@.len() - i,
    {
        proof {
            assert(v.take(i + 1).drop_last() =~= v.take(i as int));
        }
        if same_text(names[i].as_str(), name) {
            proof {
                assert(names@[i as int]@ == v[i as int].name);
                lemma_first_named_prefix(v, name@, i as int);
            }
            return Some(i);
        }
        i = i + 1;
    }
    proof {
        assert(v.take(names@.len() as int) =~= v);
    }
    None
}

proof fn lemma_first_named_prefix(v: Seq<SchemaView>, name: Seq<char>, i: int)
    requires
        0 <= i < v.len(),
        first_named(v.take(i), name) is None,
        v[i].name == name,
    ensures
        first_named(v, name) == Some(i),
    decreases v.len(),
{
    if v.len() - 1 > i {
        assert(v.drop_last().take(i) =~= v.take(i));
        lemma_first_named_prefix(v.drop_last(), name, i);
    } else {
        assert(v.drop_last() =~= v.take(i));
    }
}

proof fn lemma_first_with_filename_prefix(v: Seq<SchemaView>, f: Seq<char>, i: int)
    requires
        0 <= i < v.len(),
        first_with_filename(v.take(i), f) is None,
        v[i].filename == f,
    ensures
        first_with_filename(v, f) == Some(i),
    decreases v.len(),
{
    if v.len() - 1 > i {
        assert(v.drop_last().take(i) =~= v.take(i));
        lemma_first_with_filename_prefix(v.drop_last(), f, i);
    } else {
        assert(v.drop_last() =~= v.take(i));
    }
}

fn find_filename(views: Ghost<Seq<SchemaView>>, names: &Vec<&String>, filename: &str) -> (r: Option<
    usize,
>)
    requires
        names@.len() == views@.len(),
        forall|i: int| 0 <= i < names@.len() ==> #[trigger] names@[i]@ == views@[i].filename,
    ensures
        match r {
            Some(i) => first_with_filename(views@, filename@) == Some(i as int),
            None => first_with_filename(views@, filename@) is None,
        },
{
    let ghost v = views@;
    let mut i: usize = 0;
    while i < names.len()
        invariant
            i <= names@.len(),
            v == views@,
            names@.len() == v.len(),
            forall|m: int| 0 <= m < names@.len() ==> #[trigger] names@[m]@ == v[m].filename,
            first_with_filename(v.take(i as int), filename@) is None,
        decreases names@.len() - i,
    {
        proof {
            assert(v.take(i + 1).drop_last() =~= v.take(i as int));
        }
        if same_text(names[i].as_str(), filename) {
            proof {
                assert(names@[i as int]@ == v[i as int].filename);
                lemma_first_with_filename_prefix(v, filename@, i as int);
            }
            return Some(i);
        }
        i = i + 1;
    }
    proof {
        assert(v.take(names@.len() as int) =~= v);
    }
    None
}

/// Prefer the Sigma Racer schema, then the M7 draft, then the first entry
/// of the listing.
pub fn latest_dbc_file(files: &Vec<DbcFile>) -> (r: Option<DbcFile>)
    ensures
        match r {
            Some(f) => preferred_dbc(dbc_views(files@)) == Some(f@),
            None => preferred_dbc(dbc_views(files@)) is None,
        },
{
    let ghost v = dbc_views(files@);
    let mut names: Vec<&String> = Vec::new();
    let mut i: usize = 0;
    while i < files.len()
        invariant
            i <= files@.len(),
            v == dbc_views(files@),
            names@.len() == i,
            forall|m: int| 0 <= m < i ==> #[trigger] names@[m]@ == v[m].name,
        decreases files@.len() - i,
    {
        names.push(&files[i].name);
        i = i + 1;
    }
    proof {
        lemma_first_named(v, "sigma-racer"@);
        lemma_first_named(v, "m7-draft"@);
    }
    match find_named(Ghost(v), &names, "sigma-racer") {
        Some(i) => return Some(files[i].duplicate()),
        None => {},
    }
    match find_named(Ghost(v), &names, "m7-draft") {
        Some(i) => return Some(files[i].duplicate()),
        None => {},
    }
    if files.len() > 0 {
        Some(files[0].duplicate())
    } else {
        None
    }
}

/// Prefer the cluster signal tree, then the Sigma Racer mapping, then the
/// first entry of the listing.
pub fn latest_vss_file(files: &Vec<VssFile>) -> (r: Option<VssFile>)
    ensures
        match r {
            Some(f) => preferred_vss(vss_views(files@)) == Some(f@),
            None => preferred_vss(vss_views(files@)) is None,
        },
{
    let ghost v = vss_views(files@);
    let mut names: Vec<&String> = Vec::new();
    let mut filenames: Vec<&String> = Vec::new();
    let mut i: usize = 0;
    while i < files.len()
        invariant
            i <= files@.len(),
            v == vss_views(files@),
            names@.len() == i,
            filenames@.len() == i,
            forall|m: int| 0 <= m < i ==> #[trigger] names@[m]@ == v[m].name,
            forall|m: int| 0 <= m < i ==> #[trigger] filenames@[m]@ == v[m].filename,
        decreases files@.len() - i,
    {
        names.push(&files[i].name);
        filenames.push(&files[i].filename);
        i = i + 1;
    }
    proof {
        lemma_first_with_filename(v, "sigma-cluster.vspec"@);
        lemma_first_named(v, "sigma-racer"@);
    }
    match find_filename(Ghost(v), &filenames, "sigma-cluster.vspec") {
        Some(i) => return Some(files[i].duplicate()),
        None => {},
    }
    match find_named(Ghost(v), &names, "sigma-racer") {
        Some(i) => return Some(files[i].duplicate()),
        None => {},
    }
    if files.len() > 0 {
        Some(files[0].duplicate())
    } else {
        None
    }
}

/// A schema search finds a file exactly when its name or filename,
/// lowercased, contains the needle.
pub proof fn lemma_schema_search_fields(d: DbcFile, v: VssFile, needle: Seq<char>)
    ensures
        <DbcCatalog as CatalogSpec>::matches_spec(d, needle) <==> has_sub(lower(d.name@), needle)
            || has_sub(lower(d.filename@), needle),
        <VssCatalog as CatalogSpec>::matches_spec(v, needle) <==> has_sub(lower(v.name@), needle)
            || has_sub(lower(v.filename@), needle),
{
}

} // verus!
