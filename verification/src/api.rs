//! The JSON API's query parameters and listing bodies.

use vstd::prelude::*;

use crate::client::{present, present_spec};
use crate::listing::{Page, DEFAULT_PER_PAGE};
use crate::text::push_str;

verus! {

/// `?page=&per_page=&q=`, shared by the HTML index and every JSON listing.
#[derive(Debug)]
pub struct PageQuery {
    pub page: Option<u32>,
    pub per_page: Option<u32>,
    pub q: Option<String>,
}

impl PageQuery {
    /// 1-based page number (default 1).
    pub fn page(&self) -> (r: u32)
        ensures
            r == match self.page {
                Some(p) => p,
                None => 1u32,
            },
    {
        match self.page {
            Some(p) => p,
            None => 1,
        }
    }

    /// Requested page size (default [`DEFAULT_PER_PAGE`]; clamped
    /// downstream).
    pub fn per_page(&self) -> (r: u32)
        ensures
            r == match self.per_page {
                Some(p) => p,
                None => DEFAULT_PER_PAGE,
            },
    {
        match self.per_page {
            Some(p) => p,
            None => DEFAULT_PER_PAGE,
        }
    }

    /// Search needle (empty when absent).
    pub fn query(&self) -> (r: &str)
        ensures
            r@ == match self.q {
                Some(q) => q@,
                None => Seq::<char>::empty(),
            },
    {
        match &self.q {
            Some(q) => q.as_str(),
            None => {
                let e = "";
                proof {
                    reveal_strlit("");
                }
                e
            },
        }
    }
}

/// JSON body of a paginated catalog listing: the items live under a
/// per-catalog key (`packages`, `files`, ...).
pub struct PageResponse<T> {
    pub items_field: &'static str,
    pub page: Page<T>,
}

impl<T> PageResponse<T> {
    /// Wrap `page`, naming the item array `items_field`.
    pub fn new(items_field: &'static str, page: Page<T>) -> (r: Self)
        ensures
            r.items_field == items_field,
            r.page == page,
    {
        PageResponse { items_field, page }
    }

    /// The keys of the JSON object, in order: the item array, `total`,
    /// `page`, `per_page`, `total_pages`, and `query` only when the query is
    /// not empty.
    pub fn keys(&self) -> (r: Vec<&'static str>)
        ensures
            r@.len() == if self.page.query@.len() > 0 {
                6int
            } else {
                5int
            },
            r@[0]@ == self.items_field@,
            r@[1]@ == "total"@,
            r@[2]@ == "page"@,
            r@[3]@ == "per_page"@,
            r@[4]@ == "total_pages"@,
            self.page.query@.len() > 0 ==> r@[5]@ == "query"@,
    {
        let mut keys: Vec<&'static str> = Vec::new();
        keys.push(self.items_field);
        keys.push("total");
        keys.push("page");
        keys.push("per_page");
        keys.push("total_pages");
        if !self.page.query.as_str().is_empty() {
            keys.push("query");
        }
        keys
    }
}

pub const MISSING_FILENAME: &'static str = "missing X-Package-Filename header";

/// The filename of a package upload: the `X-Package-Filename` header,
/// trimmed; an error when it is absent or blank.
pub fn upload_filename(header: &Option<String>) -> (r: Result<String, String>)
    ensures
        match r {
            Ok(f) => present_spec(*header) == Some(f@),
            Err(e) => present_spec(*header) is None && e@ == MISSING_FILENAME@,
        },
{
    match present(header) {
        Some(f) => Ok(f),
        None => Err(MISSING_FILENAME.to_string()),
    }
}

/// `unknown channel '{channel}'`.
pub fn unknown_channel(channel: &str) -> (r: String)
    ensures
        r@ == "unknown channel '"@ + channel@ + "'"@,
{
    let mut out = "unknown channel '".to_string();
    push_str(&mut out, channel);
    push_str(&mut out, "'");
    out
}

/// `bundle '{name}' not published on channel '{channel}'`.
pub fn bundle_not_published(channel: &str, name: &str) -> (r: String)
    ensures
        r@ == "bundle '"@ + name@ + "' not published on channel '"@ + channel@ + "'"@,
{
    let mut out = "bundle '".to_string();
    push_str(&mut out, name);
    push_str(&mut out, "' not published on channel '");
    push_str(&mut out, channel);
    push_str(&mut out, "'");
    out
}

/// The page a listing body names when it names none.
pub fn default_page() -> (r: u32)
    ensures
        r == 1,
{
    1
}

/// The page size a listing body names when it names none.
pub fn default_per_page() -> (r: u32)
    ensures
        r == DEFAULT_PER_PAGE,
{
    DEFAULT_PER_PAGE
}

} // verus!
