//! The rules of a mirror pass over the GitHub contents API: which listed
//! entries each catalog mirrors, which cached files are pruned, and how a
//! response is judged.

use vstd::prelude::*;

use crate::dbc::{DbcCatalog, VssCatalog};
use crate::listing::CatalogSpec;
use crate::push::pairs_view;
use crate::text::{decimal, push_decimal, push_str, same_text};

verus! {

/// One entry of a GitHub contents-API directory listing.
#[derive(Debug)]
pub struct ContentsEntry {
    pub name: String,
    /// The entry type (`file`, `dir`, ...).
    pub kind: String,
    pub download_url: Option<String>,
}

/// Whether catalog `S` mirrors a listed entry: a file it accepts, with a
/// download URL.
pub open spec fn mirrored<S: CatalogSpec>(e: ContentsEntry) -> bool {
    e.kind@ == "file"@ && S::accepts(e.name@) && e.download_url is Some
}

/// `(filename, download URL)` of each entry that catalog `S` mirrors, in
/// listing order.
pub open spec fn schema_list<S: CatalogSpec>(es: Seq<ContentsEntry>) -> Seq<(Seq<char>, Seq<char>)>
    decreases es.len(),
{
    if es.len() == 0 {
        seq![]
    } else {
        let prev = schema_list::<S>(es.drop_last());
        let e = es.last();
        if mirrored::<S>(e) {
            prev.push((e.name@, e.download_url.unwrap()@))
        } else {
            prev
        }
    }
}

/// Keep only safe, downloadable files that catalog `S` accepts.
pub fn filter_schemas<S: CatalogSpec>(entries: &[ContentsEntry]) -> (r: Vec<(String, String)>)
    ensures
        pairs_view(r@) == schema_list::<S>(entries@),
{
    let mut out: Vec<(String, String)> = Vec::new();
    let mut i: usize = 0;
    while i < entries.len()
        invariant
            i <= entries@.len(),
            pairs_view(out@) == schema_list::<S>(entries@.take(i as int)),
        decreases entries@.len() - i,
    {
        let e = &entries[i];
        proof {
            assert(entries@.take(i + 1).drop_last() =~= entries@.take(i as int));
            assert(entries@.take(i + 1).last() == entries@[i as int]);
        }
        let ghost before = out@;
        if same_text(e.kind.as_str(), "file") && S::is_safe_filename(e.name.as_str()) {
            match &e.download_url {
                Some(url) => {
                    out.push((e.name.clone(), url.clone()));
                    proof {
                        assert(pairs_view(out@) =~= pairs_view(before).push(
                            (e.name@, url@),
                        ));
                    }
                },
                None => {},
            }
        }
        i = i + 1;
    }
    proof {
        assert(entries@.take(entries@.len() as int) =~= entries@);
    }
    out
}

/// What one mirror pass fetches: the CAN dictionaries, and the VSS files
/// (the signal tree, then the CAN-mapping companions that live next to the
/// dictionaries).
pub struct SyncPlan {
    pub dictionaries: Vec<(String, String)>,
    pub vss_files: Vec<(String, String)>,
}

/// The downloads of a mirror pass, from the CAN and VSS directory listings.
pub fn plan_sync(can_listing: &[ContentsEntry], vss_listing: &[ContentsEntry]) -> (r: SyncPlan)
    ensures
        pairs_view(r.dictionaries@) == schema_list::<DbcCatalog>(can_listing@),
        pairs_view(r.vss_files@) == schema_list::<VssCatalog>(vss_listing@) + schema_list::<
            VssCatalog,
        >(can_listing@),
{
    let dictionaries = filter_schemas::<DbcCatalog>(can_listing);
    let mut vss_files = filter_schemas::<VssCatalog>(vss_listing);
    let mut companions = filter_schemas::<VssCatalog>(can_listing);
    let ghost a = vss_files@;
    let ghost b = companions@;
    vss_files.append(&mut companions);
    proof {
        assert(pairs_view(vss_files@) =~= pairs_view(a) + pairs_view(b));
    }
    SyncPlan { dictionaries, vss_files }
}

pub open spec fn strings_view(v: Seq<String>) -> Seq<Seq<char>> {
    v.map_values(|s: String| s@)
}

/// Whether `name` is the filename of a listed download.
pub open spec fn listed(remote: Seq<(Seq<char>, Seq<char>)>, name: Seq<char>) -> bool {
    exists|j: int| 0 <= j < remote.len() && #[trigger] remote[j].0 == name
}

/// The cached filenames that no longer exist upstream, in cache order.
pub open spec fn removed(local: Seq<Seq<char>>, remote: Seq<(Seq<char>, Seq<char>)>) -> Seq<Seq<char>>
    decreases local.len(),
{
    if local.len() == 0 {
        seq![]
    } else {
        let prev = removed(local.drop_last(), remote);
        if listed(remote, local.last()) {
            prev
        } else {
            prev.push(local.last())
        }
    }
}

fn is_listed(remote: &[(String, String)], name: &str) -> (r: bool)
    ensures
        r == listed(pairs_view(remote@), name@),
{
    let ghost rv = pairs_view(remote@);
    let mut j: usize = 0;
    while j < remote.len()
        invariant
            j <= remote@.len(),
            rv == pairs_view(remote@),
            forall|m: int| 0 <= m < j ==> rv[m].0 != name@,
        decreases remote@.len() - j,
    {
        if same_text(remote[j].0.as_str(), name) {
            proof {
                assert(rv[j as int].0 == name@);
            }
            return true;
        }
        j = j + 1;
    }
    false
}

/// The cached files a mirror pass deletes: those no listed download names.
pub fn removed_upstream(local: &[String], remote: &[(String, String)]) -> (r: Vec<String>)
    ensures
        strings_view(r@) == removed(strings_view(local@), pairs_view(remote@)),
{
    let mut out: Vec<String> = Vec::new();
    let mut i: usize = 0;
    while i < local.len()
        invariant
            i <= local@.len(),
            strings_view(out@) == removed(strings_view(local@.take(i as int)), pairs_view(remote@)),
        decreases local@.len() - i,
    {
        proof {
            assert(strings_view(local@.take(i + 1)).drop_last() =~= strings_view(
                local@.take(i as int),
            ));
            assert(strings_view(local@.take(i + 1)).last() == local@[i as int]@);
        }
        let ghost before = out@;
        if !is_listed(remote, local[i].as_str()) {
            out.push(local[i].clone());
            proof {
                assert(strings_view(out@) =~= strings_view(before).push(local@[i as int]@));
            }
        }
        i = i + 1;
    }
    proof {
        assert(local@.take(local@.len() as int) =~= local@);
    }
    out
}

/// Whether a downloaded schema differs from the cached copy and so is
/// published again.
pub fn needs_publish(cached: &str, content: &str) -> (r: bool)
    ensures
        r == (cached@ != content@),
{
    !same_text(cached, content)
}

/// The contents-API URL of a directory listing.
pub open spec fn contents_url_of(repo: Seq<char>, path: Seq<char>, git_ref: Seq<char>) -> Seq<char> {
    "https://api.github.com/repos/"@ + repo + "/contents/"@ + path + "?ref="@ + git_ref
}

/// `https://api.github.com/repos/{repo}/contents/{path}?ref={git_ref}`.
pub fn contents_url(repo: &str, path: &str, git_ref: &str) -> (r: String)
    ensures
        r@ == contents_url_of(repo@, path@, git_ref@),
{
    let mut url = "https://api.github.com/repos/".to_string();
    push_str(&mut url, repo);
    push_str(&mut url, "/contents/");
    push_str(&mut url, path);
    push_str(&mut url, "?ref=");
    push_str(&mut url, git_ref);
    url
}

/// The error text of a GET answered outside `200..300`.
pub open spec fn status_message(url: Seq<char>, status: u16, body: Seq<char>) -> Seq<char> {
    "GET "@ + url + ": status "@ + decimal(status as nat) + ": "@ + body
}

/// The body of a successful GET; any status outside `200..300` is an error
/// naming the URL, the status and the body.
pub fn check_response(url: &str, status: u16, body: String) -> (r: Result<String, String>)
    ensures
        200 <= status < 300 ==> r == Ok::<String, String>(body),
        !(200 <= status < 300) ==> (r matches Err(e) && e@ == status_message(url@, status, body@)),
{
    if 200 <= status && status < 300 {
        return Ok(body);
    }
    let mut e = "GET ".to_string();
    push_str(&mut e, url);
    push_str(&mut e, ": status ");
    push_decimal(&mut e, status as u64);
    push_str(&mut e, ": ");
    push_str(&mut e, body.as_str());
    Err(e)
}

/// A mirror pass deletes exactly the cached files that no listed download
/// names: a cached file is pruned if and only if it is gone upstream.
pub proof fn lemma_pruned_iff_unlisted(
    local: Seq<Seq<char>>,
    remote: Seq<(Seq<char>, Seq<char>)>,
    f: Seq<char>,
)
    requires
        local.contains(f),
    ensures
        removed(local, remote).contains(f) <==> !listed(remote, f),
    decreases local.len(),
{
    let prev = local.drop_last();
    lemma_removed_subset(prev, remote);
    if prev.contains(f) {
        lemma_pruned_iff_unlisted(prev, remote, f);
        if removed(prev, remote).contains(f) {
            let j = choose|j: int| 0 <= j < removed(prev, remote).len() && removed(prev, remote)[j] == f;
            if !listed(remote, local.last()) {
                assert(removed(local, remote)[j] == f);
            }
        }
        if removed(local, remote).contains(f) && !removed(prev, remote).contains(f) {
            assert(!listed(remote, local.last()));
            assert(local.last() == f);
        }
    } else {
        let j = choose|j: int| 0 <= j < local.len() && local[j] == f;
        if j < local.len() - 1 {
            assert(prev[j] == f);
        }
        assert(local.last() == f);
        if !listed(remote, f) {
            assert(removed(local, remote).last() == f);
        } else {
            assert(!removed(prev, remote).contains(f));
        }
    }
}

/// Everything pruned is a cached file.
proof fn lemma_removed_subset(local: Seq<Seq<char>>, remote: Seq<(Seq<char>, Seq<char>)>)
    ensures
        forall|x: Seq<char>| #[trigger] removed(local, remote).contains(x) ==> local.contains(x),
    decreases local.len(),
{
    if local.len() > 0 {
        let prev = local.drop_last();
        lemma_removed_subset(prev, remote);
        assert forall|x: Seq<char>| #[trigger] removed(local, remote).contains(x) implies local.contains(
            x,
        ) by {
            if removed(prev, remote).contains(x) {
                let j = choose|j: int| 0 <= j < prev.len() && prev[j] == x;
                assert(local[j] == x);
            } else {
                assert(local[local.len() - 1] == x);
            }
        }
    }
}

} // verus!
