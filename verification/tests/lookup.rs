use static_opti::artifact::LoadError;
use static_opti::{match_encoding_tag, FileService, Item, ReportItem};

// A blob with the plain, gzip and brotli bytes of three files.
const BLOB: &[u8] = b"AAAAaaaBBBBbbIIIIgggrr";

fn manifest() -> Vec<ReportItem<'static>> {
    vec![
        ReportItem {
            path: "a/index.html",
            plain: ("a-plain", (0, 4)),
            gzip: Some(("a-gzip", (4, 3))),
            brotli: None,
        },
        ReportItem {
            path: "b.html",
            plain: ("b-plain", (7, 4)),
            gzip: None,
            brotli: Some(("b-brotli", (11, 2))),
        },
        ReportItem {
            path: "index.html",
            plain: ("i-plain", (13, 4)),
            gzip: Some(("i-gzip", (17, 3))),
            brotli: Some(("i-brotli", (20, 2))),
        },
    ]
}

fn service() -> FileService<'static> {
    match FileService::from_raw(BLOB, manifest()) {
        Ok(service) => service,
        Err(e) => panic!("load failed: {:?}", e),
    }
}

#[test]
fn exact_path_is_found() {
    let service = service();
    let m = service.find("", "b.html").unwrap();
    assert_eq!(m.path, "b.html");
    assert_eq!(m.content, b"BBBB");
    assert_eq!(m.etag, "b-plain");
    assert_eq!(m.encoding, None);
}

#[test]
fn directory_resolves_to_its_index_page() {
    let service = service();
    let m = service.find("", "a").unwrap();
    assert_eq!(m.path, "a/index.html");
    assert_eq!(m.content, b"AAAA");
    let m = service.find("", "a/").unwrap();
    assert_eq!(m.path, "a/index.html");
    let m = service.find("", "/a/").unwrap();
    assert_eq!(m.path, "a/index.html");
    let m = service.find("", "a/index.html").unwrap();
    assert_eq!(m.path, "a/index.html");
}

#[test]
fn extensionless_path_resolves_to_html_page() {
    let service = service();
    let m = service.find("", "b").unwrap();
    assert_eq!(m.path, "b.html");
    let m = service.find("", "/b").unwrap();
    assert_eq!(m.path, "b.html");
}

#[test]
fn unknown_path_is_not_found() {
    let service = service();
    assert!(service.find("", "c").is_none());
    assert!(service.find("br, gzip", "a/b").is_none());
    assert!(service.find("", "b.htm").is_none());
    assert!(service.find("", "a/index").is_some());
    assert!(service.find("", "a//").is_some());
    assert!(service.find("", "a/x/").is_none());
}

#[test]
fn root_resolves_to_bare_index_page() {
    let service = service();
    for request in ["", "/", "//", "index", "index.html", "/index.html/"] {
        let m = service.find("", request).unwrap();
        assert_eq!(m.path, "index.html");
        assert_eq!(m.content, b"IIII");
    }
}

#[test]
fn root_without_index_page_is_not_found() {
    let items = vec![ReportItem {
        path: "b.html",
        plain: ("b-plain", (7, 4)),
        gzip: None,
        brotli: None,
    }];
    let service = match FileService::from_raw(BLOB, items) {
        Ok(service) => service,
        Err(e) => panic!("load failed: {:?}", e),
    };
    assert!(service.find("", "/").is_none());
    assert!(service.find("", "").is_none());
}

#[test]
fn root_falls_back_to_dot_html() {
    let items = vec![ReportItem {
        path: ".html",
        plain: ("dot", (0, 1)),
        gzip: None,
        brotli: None,
    }];
    let service = match FileService::from_raw(BLOB, items) {
        Ok(service) => service,
        Err(e) => panic!("load failed: {:?}", e),
    };
    assert_eq!(service.find("", "/").unwrap().path, ".html");
}

#[test]
fn exact_match_wins_over_fallbacks() {
    let items = vec![
        ReportItem { path: "a", plain: ("exact", (0, 1)), gzip: None, brotli: None },
        ReportItem { path: "a/index.html", plain: ("index", (1, 1)), gzip: None, brotli: None },
        ReportItem { path: "a.html", plain: ("page", (2, 1)), gzip: None, brotli: None },
    ];
    let service = match FileService::from_raw(BLOB, items) {
        Ok(service) => service,
        Err(e) => panic!("load failed: {:?}", e),
    };
    assert_eq!(service.find("", "a").unwrap().etag, "exact");
    assert_eq!(service.find("", "/a/").unwrap().etag, "exact");
}

#[test]
fn index_page_wins_over_html_page() {
    let items = vec![
        ReportItem { path: "a.html", plain: ("page", (2, 1)), gzip: None, brotli: None },
        ReportItem { path: "a/index.html", plain: ("index", (1, 1)), gzip: None, brotli: None },
    ];
    let service = match FileService::from_raw(BLOB, items) {
        Ok(service) => service,
        Err(e) => panic!("load failed: {:?}", e),
    };
    assert_eq!(service.find("", "a").unwrap().etag, "index");
}

#[test]
fn brotli_is_preferred_when_accepted() {
    let service = service();
    let m = service.find("br, gzip", "index.html").unwrap();
    assert_eq!(m.encoding, Some("br"));
    assert_eq!(m.content, b"rr");
    assert_eq!(m.etag, "i-brotli");
    let m = service.find("gzip, deflate, br", "/").unwrap();
    assert_eq!(m.encoding, Some("br"));
}

#[test]
fn gzip_is_served_when_brotli_is_not_accepted() {
    let service = service();
    let m = service.find("gzip", "index.html").unwrap();
    assert_eq!(m.encoding, Some("gzip"));
    assert_eq!(m.content, b"ggg");
    assert_eq!(m.etag, "i-gzip");
}

#[test]
fn plain_is_served_when_nothing_is_accepted() {
    let service = service();
    let m = service.find("", "index.html").unwrap();
    assert_eq!(m.encoding, None);
    assert_eq!(m.content, b"IIII");
    assert_eq!(m.etag, "i-plain");
    let m = service.find("deflate, identity", "index.html").unwrap();
    assert_eq!(m.encoding, None);
}

#[test]
fn missing_variant_falls_through() {
    let service = service();
    // No brotli variant for this file: gzip is next.
    let m = service.find("br, gzip", "a").unwrap();
    assert_eq!(m.encoding, Some("gzip"));
    assert_eq!(m.content, b"aaa");
    // No gzip variant for this one: plain when brotli is not accepted.
    let m = service.find("gzip", "b").unwrap();
    assert_eq!(m.encoding, None);
    assert_eq!(m.content, b"BBBB");
    let m = service.find("br", "b").unwrap();
    assert_eq!(m.encoding, Some("br"));
    assert_eq!(m.content, b"bb");
}

#[test]
fn negotiation_is_a_plain_substring_test() {
    let service = service();
    // "br" stands inside "sombrero".
    let m = service.find("sombrero", "index.html").unwrap();
    assert_eq!(m.encoding, Some("br"));
    // Case matters.
    let m = service.find("BR, GZIP", "index.html").unwrap();
    assert_eq!(m.encoding, None);
    // A quality of zero is not understood as a refusal.
    let m = service.find("gzip;q=0", "index.html").unwrap();
    assert_eq!(m.encoding, Some("gzip"));
}

#[test]
fn match_encoding_tag_picks_label_and_variant() {
    let item = Item {
        path: "x",
        plain: ("p", b"plain"),
        gzip: Some(("g", b"gz")),
        brotli: Some(("b", b"br")),
    };
    assert_eq!(match_encoding_tag("br, gzip", &item), (Some("br"), ("b", &b"br"[..])));
    assert_eq!(match_encoding_tag("gzip", &item), (Some("gzip"), ("g", &b"gz"[..])));
    assert_eq!(match_encoding_tag("", &item), (None, ("p", &b"plain"[..])));
    let plain_only = Item { path: "x", plain: ("p", b"plain"), gzip: None, brotli: None };
    assert_eq!(match_encoding_tag("br, gzip", &plain_only), (None, ("p", &b"plain"[..])));
}

#[test]
fn from_report_borrows_the_regions() {
    let report = ReportItem {
        path: "index.html",
        plain: ("i-plain", (13, 4)),
        gzip: Some(("i-gzip", (17, 3))),
        brotli: Some(("i-brotli", (20, 2))),
    };
    assert!(report.within(BLOB.len()));
    let item = Item::from_report(&report, BLOB);
    assert_eq!(item.path, "index.html");
    assert_eq!(item.plain, ("i-plain", &b"IIII"[..]));
    assert_eq!(item.gzip, Some(("i-gzip", &b"ggg"[..])));
    assert_eq!(item.brotli, Some(("i-brotli", &b"rr"[..])));
    assert_eq!(Item::borrow(("t", (4, 3)), BLOB), ("t", &b"aaa"[..]));
    assert_eq!(Item::borrow(("t", (22, 0)), BLOB), ("t", &b""[..]));
}

#[test]
fn within_checks_every_region() {
    let mut report = ReportItem {
        path: "p",
        plain: ("t", (0, 22)),
        gzip: None,
        brotli: None,
    };
    assert!(report.within(22));
    assert!(!report.within(21));
    report.gzip = Some(("g", (21, 2)));
    assert!(!report.within(22));
    report.gzip = Some(("g", (21, 1)));
    report.brotli = Some(("b", (u64::MAX, 1)));
    assert!(!report.within(22));
    report.brotli = Some(("b", (23, 0)));
    assert!(!report.within(22));
    report.brotli = Some(("b", (22, 0)));
    assert!(report.within(22));
}

#[test]
fn region_outside_the_blob_fails_the_load() {
    let items = vec![
        ReportItem { path: "ok", plain: ("t", (0, 4)), gzip: None, brotli: None },
        ReportItem { path: "bad", plain: ("t", (20, 3)), gzip: None, brotli: None },
    ];
    match FileService::from_raw(BLOB, items) {
        Ok(_) => panic!("a region outside the blob was accepted"),
        Err(e) => assert_eq!(e, LoadError::RegionOutOfBounds),
    }
    let items = vec![ReportItem {
        path: "bad",
        plain: ("t", (0, 4)),
        gzip: Some(("g", (u64::MAX, u32::MAX))),
        brotli: None,
    }];
    assert!(FileService::from_raw(BLOB, items).is_err());
}

#[test]
fn empty_manifest_finds_nothing() {
    let service = match FileService::from_raw(b"", vec![]) {
        Ok(service) => service,
        Err(e) => panic!("load failed: {:?}", e),
    };
    assert!(service.find("br", "").is_none());
    assert!(service.find("br", "index.html").is_none());
}

#[test]
fn later_item_replaces_earlier_one_with_the_same_path() {
    let items = vec![
        ReportItem { path: "p", plain: ("first", (0, 1)), gzip: None, brotli: None },
        ReportItem { path: "q", plain: ("other", (1, 1)), gzip: None, brotli: None },
        ReportItem { path: "p", plain: ("second", (2, 1)), gzip: None, brotli: None },
    ];
    let service = match FileService::from_raw(BLOB, items) {
        Ok(service) => service,
        Err(e) => panic!("load failed: {:?}", e),
    };
    assert_eq!(service.find("", "p").unwrap().etag, "second");
    assert_eq!(service.find("", "q").unwrap().etag, "other");
}

#[test]
fn paths_need_not_be_ascii() {
    let items = vec![ReportItem {
        path: "caf\u{e9}/index.html",
        plain: ("t", (0, 2)),
        gzip: None,
        brotli: None,
    }];
    let service = match FileService::from_raw(BLOB, items) {
        Ok(service) => service,
        Err(e) => panic!("load failed: {:?}", e),
    };
    assert_eq!(service.find("", "/caf\u{e9}/").unwrap().path, "caf\u{e9}/index.html");
    assert!(service.find("", "cafe").is_none());
}
