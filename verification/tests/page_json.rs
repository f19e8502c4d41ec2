use serde::ser::{SerializeMap, Serializer};
use serde::Serialize;
use sigma_updates::api::PageResponse;
use sigma_updates::listing::Page;

/// Writes a page response as the service does: one entry per key, in the
/// order the library gives.
struct Body<'a>(&'a PageResponse<&'static str>);

impl Serialize for Body<'_> {
    fn serialize<S: Serializer>(&self, serializer: S) -> Result<S::Ok, S::Error> {
        let keys = self.0.keys();
        let page = &self.0.page;
        let mut map = serializer.serialize_map(Some(keys.len()))?;
        for (i, key) in keys.iter().enumerate() {
            match i {
                0 => map.serialize_entry(key, &page.items)?,
                1 => map.serialize_entry(key, &page.total)?,
                2 => map.serialize_entry(key, &page.page)?,
                3 => map.serialize_entry(key, &page.per_page)?,
                4 => map.serialize_entry(key, &page.total_pages)?,
                _ => map.serialize_entry(key, &page.query)?,
            }
        }
        map.end()
    }
}

fn page(query: &str) -> Page<&'static str> {
    Page {
        items: vec!["a"],
        total: 1,
        page: 1,
        per_page: 50,
        total_pages: 1,
        query: query.to_owned(),
    }
}

#[test]
fn names_the_item_array_per_catalog() {
    let response = PageResponse::new("packages", page(""));
    let json = serde_json::to_string(&Body(&response)).unwrap();
    assert!(json.starts_with(r#"{"packages":["a"],"total":1"#), "{json}");
    assert!(!json.contains("query"));
}

#[test]
fn includes_a_non_empty_query() {
    let response = PageResponse::new("files", page("abc"));
    let json = serde_json::to_string(&Body(&response)).unwrap();
    assert!(json.contains(r#""files":["a"]"#), "{json}");
    assert!(json.contains(r#""query":"abc""#), "{json}");
}
