use sigma_updates::bundles::published_bundle_path;
use sigma_updates::templates::escape_html;
use sigma_updates::api::{bundle_not_published, unknown_channel, upload_filename, PageQuery, PageResponse};
use sigma_updates::bundles::{bundle_path, is_safe_channel, is_safe_filename, MAX_BUNDLE_BYTES};
use sigma_updates::catalog::Catalog;
use sigma_updates::config::{
    bundles_dir, dbc_dir, dbc_github_path, dbc_github_ref, dbc_github_repo, dbc_github_source,
    dbc_sync_interval, env_or, packages_dir, parse_u64, vss_dir, vss_github_path,
};
use sigma_updates::control::DebPackage;
use sigma_updates::dbc::{latest_dbc_file, latest_vss_file, DbcCatalog, DbcFile, VssCatalog, VssFile};
use sigma_updates::listing::{
    check_publish, invalidate, list_in, page, paginate, path, publish_status, tmp_path, CatalogSpec,
    DirFingerprint, ListCache, Page, PublishError, UploadProgress,
};
use sigma_updates::packages::{download_path, parse_deb_filename, PackageCatalog};
use sigma_updates::sync::{
    check_response, contents_url, filter_schemas, needs_publish, plan_sync, removed_upstream,
    ContentsEntry,
};
use sigma_updates::templates::{nav_pages, page_href, percent_encode, shown_range, sign_in_url};

fn stub(name: &str) -> DbcFile {
    DbcFile {
        filename: format!("{name}.dbc"),
        name: name.into(),
        size_bytes: 1,
        download_path: format!("/dbc/{name}.dbc"),
    }
}

fn vss(filename: &str, name: &str) -> VssFile {
    VssFile {
        filename: filename.into(),
        name: name.into(),
        size_bytes: 1,
        download_path: format!("/vss/{filename}"),
    }
}

fn pkg(name: &str, version: &str) -> DebPackage {
    DebPackage {
        filename: format!("{name}_{version}_all.deb"),
        name: name.into(),
        version: version.into(),
        architecture: "all".into(),
        size_bytes: 1,
        download_path: format!("/packages/{name}_{version}_all.deb"),
        depends: Vec::new(),
        pre_depends: Vec::new(),
        provides: Vec::new(),
        description: None,
    }
}

fn entry(name: &str, kind: &str, url: Option<&str>) -> ContentsEntry {
    ContentsEntry {
        name: name.into(),
        kind: kind.into(),
        download_url: url.map(Into::into),
    }
}

#[test]
fn channel_names() {
    assert!(is_safe_channel("dev"));
    assert!(is_safe_channel("stable-1"));
    assert!(!is_safe_channel(""));
    assert!(!is_safe_channel("Dev"));
    assert!(!is_safe_channel("../dev"));
}

#[test]
fn filenames() {
    assert!(is_safe_filename("1.1.0.raucb"));
    assert!(!is_safe_filename("../1.1.0.raucb"));
    assert!(!is_safe_filename("bundle.deb"));
}

#[test]
fn channel_names_are_at_most_32_characters() {
    assert!(is_safe_channel(&"a".repeat(32)));
    assert!(!is_safe_channel(&"a".repeat(33)));
    assert!(!is_safe_channel("dév"));
}

#[test]
fn bundle_paths_mirror_the_download_url() {
    assert_eq!(
        bundle_path("bundles", "dev", "1.1.0.raucb").as_deref(),
        Some("bundles/dev/bundle/1.1.0.raucb")
    );
    assert_eq!(
        bundle_path("/srv/b/", "dev", "x.raucb").as_deref(),
        Some("/srv/b/dev/bundle/x.raucb")
    );
    assert!(bundle_path("bundles", "Dev", "1.raucb").is_none());
    assert!(bundle_path("bundles", "dev", "../1.raucb").is_none());
    assert_eq!(MAX_BUNDLE_BYTES, 2 * 1024 * 1024 * 1024);
}

#[test]
fn dbc_rejects_traversal() {
    assert!(path::<DbcCatalog>("dbc", "../etc/passwd.dbc").is_none());
    assert!(path::<DbcCatalog>("dbc", "foo/bar.dbc").is_none());
}

#[test]
fn packages_rejects_traversal() {
    assert!(path::<PackageCatalog>("packages", "../etc/passwd.deb").is_none());
    assert!(path::<PackageCatalog>("packages", "foo/bar.deb").is_none());
}

#[test]
fn vss_rejects_traversal() {
    assert!(path::<VssCatalog>("vss", "../etc/passwd.yaml").is_none());
    assert!(path::<VssCatalog>("vss", "foo/bar.vspec").is_none());
}

#[test]
fn safe_paths_join_the_catalog_directory() {
    assert_eq!(
        path::<DbcCatalog>("dbc", "Sigma.DBC").as_deref(),
        Some("dbc/Sigma.DBC")
    );
    assert_eq!(tmp_path("dbc", "a.dbc"), "dbc/.a.dbc.tmp");
}

#[test]
fn accepts_vss_extensions_only() {
    assert!(VssCatalog::is_safe_filename("sigma-cluster.vspec"));
    assert!(VssCatalog::is_safe_filename("sigma-racer.yaml"));
    assert!(!VssCatalog::is_safe_filename("sigma-racer.dbc"));
    assert!(!VssCatalog::is_safe_filename("../evil.yaml"));
    assert!(!VssCatalog::is_safe_filename("a/b.vspec"));
}

#[test]
fn dbc_paginates_and_filters() {
    let all: Vec<_> = (0..120).map(|i| stub(&format!("schema-{i:03}"))).collect();
    let page = paginate(&all, 2, 50, "", DbcCatalog::matches);
    assert_eq!(page.total, 120);
    assert_eq!(page.total_pages, 3);
    assert_eq!(page.page, 2);
    assert_eq!(page.items.len(), 50);
    assert_eq!(page.items[0].name, "schema-050");

    let filtered = paginate(&all, 1, 50, "schema-11", DbcCatalog::matches);
    assert_eq!(filtered.total, 10);
    assert!(filtered.items.iter().all(|f| f.name.contains("schema-11")));
}

#[test]
fn packages_paginates_and_filters() {
    let all: Vec<_> = (0..120).map(|i| pkg(&format!("pkg-{i:03}"), "1")).collect();
    let page = paginate(&all, 2, 50, "", PackageCatalog::matches);
    assert_eq!(page.total, 120);
    assert_eq!(page.total_pages, 3);
    assert_eq!(page.page, 2);
    assert_eq!(page.items.len(), 50);
    assert_eq!(page.items[0].name, "pkg-050");

    let filtered = paginate(&all, 1, 50, "pkg-11", PackageCatalog::matches);
    assert_eq!(filtered.total, 10); // pkg-110 .. pkg-119
    assert!(filtered.items.iter().all(|p| p.name.contains("pkg-11")));
}

#[test]
fn last_page_is_clamped_and_partial() {
    let all: Vec<_> = (0..25).map(|i| pkg(&format!("pkg-{i:02}"), "1")).collect();
    let page = paginate(&all, 99, 10, "", PackageCatalog::matches);
    assert_eq!(page.page, 3);
    assert_eq!(page.items.len(), 5);
}

#[test]
fn pages_cover_the_listing_once_in_order() {
    let all: Vec<_> = (0..23).map(|i| stub(&format!("s-{i:02}"))).collect();
    let mut seen = Vec::new();
    for p in 1..=3 {
        let pg = page::<DbcCatalog>(&all, p, 10, "  ");
        assert_eq!(pg.total_pages, 3);
        assert_eq!(pg.has_prev(), p > 1);
        assert_eq!(pg.has_next(), p < 3);
        seen.extend(pg.items.into_iter().map(|f| f.name));
    }
    let names: Vec<String> = all.into_iter().map(|f| f.name).collect();
    assert_eq!(seen, names);
}

#[test]
fn per_page_is_clamped_and_query_is_trimmed_and_lowercased() {
    let all: Vec<_> = (0..3).map(|i| stub(&format!("Sigma-{i}"))).collect();
    let pg = paginate(&all, 0, 0, "  SIGMA-1 ", DbcCatalog::matches);
    assert_eq!(pg.per_page, 1);
    assert_eq!(pg.page, 1);
    assert_eq!(pg.total, 1);
    assert_eq!(pg.query, "SIGMA-1");
    let big = paginate(&all, 1, 10_000, "", DbcCatalog::matches);
    assert_eq!(big.per_page, 500);
    let none = paginate(&all, 5, 10, "zzz", DbcCatalog::matches);
    assert_eq!((none.total, none.total_pages, none.page, none.items.len()), (0, 1, 1, 0));
}

#[test]
fn filters_listing_to_safe_dbc_files() {
    let entries = vec![
        entry("sigma-racer.dbc", "file", Some("https://x/sigma-racer.dbc")),
        entry("m7-draft.yaml", "file", Some("https://x/m7-draft.yaml")),
        entry("subdir", "dir", None),
        entry("../evil.dbc", "file", Some("https://x/evil.dbc")),
        entry("no-url.dbc", "file", None),
    ];
    let remote = filter_schemas::<DbcCatalog>(&entries);
    assert_eq!(remote.len(), 1);
    assert_eq!(remote[0].0, "sigma-racer.dbc");
}

#[test]
fn same_listing_yields_yaml_companions_for_vss() {
    let entries = vec![
        entry("sigma-racer.dbc", "file", Some("https://x/sigma-racer.dbc")),
        entry(
            "sigma-racer.yaml",
            "file",
            Some("https://x/sigma-racer.yaml"),
        ),
        entry("m7-draft.yaml", "file", Some("https://x/m7-draft.yaml")),
    ];
    let remote = filter_schemas::<VssCatalog>(&entries);
    let names: Vec<_> = remote.iter().map(|(n, _)| n.as_str()).collect();
    assert_eq!(names, ["sigma-racer.yaml", "m7-draft.yaml"]);
}

#[test]
fn a_sync_pass_mirrors_the_signal_tree_then_the_companions() {
    let can = vec![
        entry("sigma-racer.dbc", "file", Some("https://x/a.dbc")),
        entry("sigma-racer.yaml", "file", Some("https://x/a.yaml")),
    ];
    let vss_listing = vec![
        entry("sigma-cluster.vspec", "file", Some("https://x/c.vspec")),
        entry("README.md", "file", Some("https://x/r.md")),
    ];
    let plan = plan_sync(&can, &vss_listing);
    assert_eq!(plan.dictionaries.len(), 1);
    assert_eq!(plan.dictionaries[0].1, "https://x/a.dbc");
    let names: Vec<_> = plan.vss_files.iter().map(|(n, _)| n.as_str()).collect();
    assert_eq!(names, ["sigma-cluster.vspec", "sigma-racer.yaml"]);
}

#[test]
fn pruning_removes_exactly_the_files_gone_upstream() {
    let local = vec!["a.dbc".to_string(), "b.dbc".to_string(), "c.dbc".to_string()];
    let remote = vec![
        ("c.dbc".to_string(), "https://x/c".to_string()),
        ("a.dbc".to_string(), "https://x/a".to_string()),
    ];
    assert_eq!(removed_upstream(&local, &remote), ["b.dbc"]);
    assert!(removed_upstream(&local, &[]).len() == 3);
    assert!(needs_publish("old", "new"));
    assert!(!needs_publish("same", "same"));
}

#[test]
fn contents_api_urls_and_responses() {
    assert_eq!(
        contents_url("org/repo", "schemas/can", "main"),
        "https://api.github.com/repos/org/repo/contents/schemas/can?ref=main"
    );
    assert_eq!(check_response("u", 200, "body".into()).unwrap(), "body");
    assert_eq!(
        check_response("https://x", 404, "Not Found".into()).unwrap_err(),
        "GET https://x: status 404: Not Found"
    );
}

#[test]
fn latest_schema_prefers_the_sigma_racer_dictionary() {
    let files = vec![stub("a"), stub("m7-draft"), stub("sigma-racer")];
    assert_eq!(latest_dbc_file(&files).unwrap().name, "sigma-racer");
    let files = vec![stub("a"), stub("m7-draft")];
    assert_eq!(latest_dbc_file(&files).unwrap().name, "m7-draft");
    let files = vec![stub("b"), stub("a")];
    assert_eq!(latest_dbc_file(&files).unwrap().name, "b");
    assert!(latest_dbc_file(&Vec::new()).is_none());

    let files = vec![
        vss("sigma-racer.yaml", "sigma-racer"),
        vss("sigma-cluster.vspec", "sigma-cluster"),
    ];
    assert_eq!(latest_vss_file(&files).unwrap().filename, "sigma-cluster.vspec");
    let files = vec![vss("x.yaml", "x"), vss("sigma-racer.yaml", "sigma-racer")];
    assert_eq!(latest_vss_file(&files).unwrap().filename, "sigma-racer.yaml");
}

#[test]
fn dbc_entries_and_content_checks() {
    let f = DbcCatalog::describe("sigma-racer.dbc", 42);
    assert_eq!(f.name, "sigma-racer");
    assert_eq!(f.download_path, "/dbc/sigma-racer.dbc");
    assert_eq!(f.size_bytes, 42);
    assert!(DbcCatalog::check_text("VERSION \"\"\nBO_ 1 X: 8 Y\n").is_ok());
    assert_eq!(
        DbcCatalog::check_text("VERSION only").unwrap_err(),
        "missing VERSION or BO_ sections"
    );
}

#[test]
fn sorting_orders_by_name_then_filename() {
    let mut files = vec![stub("b"), stub("a"), stub("c")];
    DbcCatalog::sort(&mut files);
    let names: Vec<_> = files.iter().map(|f| f.name.as_str()).collect();
    assert_eq!(names, ["a", "b", "c"]);

    let mut pkgs = vec![pkg("b", "1.0"), pkg("a", "1.9"), pkg("a", "1.10")];
    PackageCatalog::sort(&mut pkgs);
    let files: Vec<_> = pkgs.iter().map(|p| p.filename.as_str()).collect();
    // Versions order newest first as text, as the listing always has.
    assert_eq!(files, ["a_1.9_all.deb", "a_1.10_all.deb", "b_1.0_all.deb"]);
}

#[test]
fn parses_standard_deb_name() {
    let (n, v, a) = parse_deb_filename("sigma-updates-sample_0.1.0-1_all.deb");
    assert_eq!(n, "sigma-updates-sample");
    assert_eq!(v, "0.1.0-1");
    assert_eq!(a, "all");
}

#[test]
fn unparseable_names_fall_back_to_placeholders() {
    let (n, v, a) = parse_deb_filename("weird.deb");
    assert_eq!(n, "weird");
    assert_eq!((v.as_str(), a.as_str()), ("\u{2014}", "\u{2014}"));
}

#[test]
fn package_entries_come_from_the_filename_when_unreadable() {
    let p = PackageCatalog::describe("tool_2.0-1_arm64.deb", 7, None);
    assert_eq!((p.name.as_str(), p.version.as_str(), p.architecture.as_str()), ("tool", "2.0-1", "arm64"));
    assert_eq!(p.download_path, "/packages/tool_2.0-1_arm64.deb");
    assert_eq!(download_path("x.deb"), "/packages/x.deb");
}

#[test]
fn channels_are_sorted_and_listed_once() {
    let mut catalog = Catalog::with_dev_defaults("https://u.example", None, 1_700_000_000, 5);
    let rel = &catalog.releases[0];
    assert_eq!(rel.version, "0.1.0-dev.1");
    assert_eq!(rel.bundle_url, "https://u.example/v1/channel/dev/bundle/0.1.0-dev.1.raucb");
    assert_eq!(rel.install, "reboot");
    let mut more = Catalog::with_dev_defaults("b", Some("9.9"), 0, 0);
    let mut extra = more.releases.pop().unwrap();
    extra.channel = "beta".to_string();
    catalog.releases.push(extra);
    let mut again = Catalog::with_dev_defaults("c", Some("1.0"), 0, 0);
    catalog.releases.push(again.releases.pop().unwrap());
    assert_eq!(catalog.channels(), ["beta", "dev"]);
    assert_eq!(catalog.latest("dev").unwrap().version, "0.1.0-dev.1");
    assert_eq!(catalog.latest("beta").unwrap().version, "9.9");
    assert!(catalog.latest("stable").is_none());
}

#[test]
fn settings_fall_back_to_their_defaults() {
    assert_eq!(packages_dir(None), "packages");
    assert_eq!(packages_dir(Some("/app/packages")), "/app/packages");
    assert_eq!(bundles_dir(None), "bundles");
    assert_eq!(dbc_dir(None), "dbc");
    assert_eq!(vss_dir(None), "vss");
    assert_eq!(env_or(Some("v"), "d"), "v");
    assert_eq!(dbc_github_repo(None), "sigmatactical-org/sigma-racer-wingman");
    assert_eq!(dbc_github_path(None), "schemas/can");
    assert_eq!(vss_github_path(None), "schemas/vss");
    assert_eq!(dbc_github_ref(None), "main");
    assert_eq!(dbc_sync_interval(None), 300);
    assert_eq!(dbc_sync_interval(Some("60")), 60);
    assert_eq!(dbc_sync_interval(Some("soon")), 300);
    assert_eq!(
        dbc_github_source("o/r", "schemas/can", "main"),
        "o/r:schemas/can@main"
    );
}

#[test]
fn parse_u64_matches_str_parse() {
    for s in ["0", "+7", "18446744073709551615", "18446744073709551616", "", "+", "-1", " 1", "1a", "007"] {
        assert_eq!(parse_u64(s), s.parse::<u64>().ok(), "{s}");
    }
}

#[test]
fn publish_errors_map_to_statuses_and_messages() {
    assert_eq!(publish_status(&PublishError::InvalidFilename), 400);
    assert_eq!(publish_status(&PublishError::EmptyBody), 400);
    assert_eq!(publish_status(&PublishError::InvalidContent("x".into())), 400);
    assert_eq!(publish_status(&PublishError::TooLarge), 413);
    assert_eq!(publish_status(&PublishError::NotFound), 404);
    assert_eq!(publish_status(&PublishError::Io("disk".into())), 500);
    assert_eq!(PublishError::TooLarge.message(), "file too large");
    assert_eq!(PublishError::InvalidContent("bad".into()).message(), "invalid content: bad");
    assert_eq!(PublishError::Io("disk".into()).message(), "io error: disk");
}

#[test]
fn publish_checks_filename_then_body_then_size() {
    assert!(matches!(check_publish::<DbcCatalog>("x.deb", 0), Err(PublishError::InvalidFilename)));
    assert!(matches!(check_publish::<DbcCatalog>("x.dbc", 0), Err(PublishError::EmptyBody)));
    assert!(matches!(
        check_publish::<DbcCatalog>("x.dbc", 16 * 1024 * 1024 + 1),
        Err(PublishError::TooLarge)
    ));
    assert!(check_publish::<DbcCatalog>("x.dbc", 16 * 1024 * 1024).is_ok());
}

#[test]
fn uploads_count_bytes_against_the_cap() {
    let mut up = UploadProgress::new(8);
    assert!(matches!(up.finish(), Err(PublishError::EmptyBody)));
    assert!(up.add_chunk(4).is_ok());
    assert!(up.add_chunk(4).is_ok());
    assert_eq!(up.finish().unwrap(), 8);
    assert!(matches!(up.add_chunk(1), Err(PublishError::TooLarge)));
}

#[test]
fn the_listing_cache_is_reused_until_the_directory_changes() {
    let mut slot: Option<ListCache<u32>> = ListCache::empty();
    let mut fp = DirFingerprint::empty();
    fp.add_file(10, 5);
    fp.add_file(20, 3);
    assert_eq!((fp.count, fp.total_bytes, fp.newest_mtime_secs), (2, 30, 5));
    let first = list_in(&mut slot, fp, || vec![1, 2]);
    assert_eq!(first, [1, 2]);
    let cached = list_in(&mut slot, fp, || vec![9]);
    assert_eq!(cached, [1, 2]);
    let mut changed = fp;
    changed.add_file(1, 9);
    assert_eq!(list_in(&mut slot, changed, || vec![3]), [3]);
    invalidate(&mut slot);
    assert!(slot.is_none());
}

#[test]
fn page_queries_and_bodies() {
    let q = PageQuery { page: None, per_page: None, q: None };
    assert_eq!((q.page(), q.per_page(), q.query()), (1, 50, ""));
    let q = PageQuery { page: Some(3), per_page: Some(5), q: Some("abc".into()) };
    assert_eq!((q.page(), q.per_page(), q.query()), (3, 5, "abc"));
    let page = Page { items: vec!["a"], total: 1, page: 1, per_page: 50, total_pages: 1, query: String::new() };
    assert_eq!(PageResponse::new("packages", page).keys(), ["packages", "total", "page", "per_page", "total_pages"]);
    let page = Page { items: vec!["a"], total: 1, page: 1, per_page: 50, total_pages: 1, query: "abc".into() };
    assert_eq!(PageResponse::new("files", page).keys().last(), Some(&"query"));
    assert_eq!(upload_filename(&Some(" a.deb ".into())).unwrap(), "a.deb");
    assert_eq!(upload_filename(&None).unwrap_err(), "missing X-Package-Filename header");
    assert_eq!(unknown_channel("x"), "unknown channel 'x'");
    assert_eq!(bundle_not_published("dev", "1.raucb"), "bundle '1.raucb' not published on channel 'dev'");
}

#[test]
fn urls_are_percent_encoded() {
    assert_eq!(percent_encode("a b/c~d"), "a%20b%2Fc~d");
    assert_eq!(percent_encode("é"), "%C3%A9");
    assert_eq!(page_href(2, 50, ""), "/?page=2&per_page=50");
    assert_eq!(page_href(1, 10, "a&b"), "/?page=1&per_page=10&q=a%26b");
    assert_eq!(
        sign_in_url("https://id.example//", "https://u.example/"),
        "https://id.example/auth/login?app_uri=https%3A%2F%2Fu.example%2F&redirect_uri=https%3A%2F%2Fid.example%2Fauth%2Fcallback&scope=openid"
    );
}

#[test]
fn page_ranges_and_navigation() {
    let page = Page { items: vec![1, 2, 3], total: 23, page: 3, per_page: 10, total_pages: 3, query: String::new() };
    assert_eq!(shown_range(&page), (21, 23));
    assert_eq!(nav_pages(&page), (2, 3));
    let empty: Page<u8> = Page { items: vec![], total: 0, page: 1, per_page: 10, total_pages: 1, query: String::new() };
    assert_eq!(shown_range(&empty), (0, 0));
    assert_eq!(nav_pages(&empty), (1, 1));
}

#[test]
fn all_pages_together_give_the_filtered_listing() {
    let all: Vec<_> = (0..23).map(|i| stub(&format!("schema-{i:03}"))).collect();
    let first = paginate(&all, 1, 5, "schema-01", DbcCatalog::matches);
    let mut joined = Vec::new();
    for k in 1..=first.total_pages {
        let p = paginate(&all, k, 5, "schema-01", DbcCatalog::matches);
        if k < first.total_pages {
            assert_eq!(p.items.len(), 5);
        }
        joined.extend(p.items.into_iter().map(|f| f.name));
    }
    let expected: Vec<String> = (10..20).map(|i| format!("schema-{i:03}")).collect();
    assert_eq!(joined, expected);
    let past_end = paginate(&all, 9, 5, "schema-01", DbcCatalog::matches);
    assert_eq!(past_end.page, first.total_pages);
}

#[test]
fn has_next_is_false_on_the_last_page_and_when_nothing_matches() {
    let all: Vec<_> = (0..12).map(|i| stub(&format!("schema-{i:03}"))).collect();
    let p1 = paginate(&all, 1, 5, "", DbcCatalog::matches);
    assert!(p1.has_next());
    assert!((p1.page as usize) * (p1.per_page as usize) < p1.total);
    let p3 = paginate(&all, 3, 5, "", DbcCatalog::matches);
    assert!(!p3.has_next());
    let none = paginate(&all, 1, 5, "nothing", DbcCatalog::matches);
    assert_eq!(none.total, 0);
    assert!(!none.has_next());
}

#[test]
fn a_missing_bundle_has_no_published_path() {
    assert_eq!(
        published_bundle_path("/srv/b", "dev", "1.1.0.raucb", true).as_deref(),
        Some("/srv/b/dev/bundle/1.1.0.raucb")
    );
    assert_eq!(published_bundle_path("/srv/b", "dev", "1.1.0.raucb", false), None);
    assert_eq!(published_bundle_path("/srv/b", "../x", "1.1.0.raucb", true), None);
}

#[test]
fn html_text_is_escaped() {
    assert_eq!(escape_html(r#"a<b> & "c""#), "a&lt;b&gt; &amp; &quot;c&quot;");
    assert_eq!(escape_html("plain"), "plain");
}
