use sitemap_resolver::resolver::autocomplete;
use sitemap_resolver::resolver::normalize_slug;
use sitemap_resolver::resolver::resolve;
use sitemap_resolver::resolver::truncate_fragment;
use sitemap_resolver::resolver::validate_slug;
use sitemap_resolver::Data;
use sitemap_resolver::XmlFetchError;

fn b(s: &str) -> Vec<u8> {
    s.as_bytes().to_vec()
}

fn sample_sitemap() -> Vec<Vec<u8>> {
    vec![
        b("https://motioncanvas.io/docs/"),
        b("https://motioncanvas.io/docs/guide"),
        b("https://motioncanvas.io/api/"),
    ]
}

const DOCS: &[u8] = b"https://motioncanvas.io/docs";
const API: &[u8] = b"https://motioncanvas.io/api";

#[test]
fn normalize_prepends_slash() {
    assert_eq!(normalize_slug(b"guide"), b("/guide"));
}

#[test]
fn normalize_keeps_leading_slash() {
    assert_eq!(normalize_slug(b"/guide"), b("/guide"));
}

#[test]
fn normalize_empty_gives_root() {
    assert_eq!(normalize_slug(b""), b("/"));
}

#[test]
fn normalize_idempotent_concrete() {
    let once = normalize_slug(b"guide#intro");
    let twice = normalize_slug(&once);
    assert_eq!(once, twice);
}

#[test]
fn truncate_drops_fragment() {
    assert_eq!(truncate_fragment(b"/foo#bar"), b("/foo"));
}

#[test]
fn truncate_without_fragment_keeps_all() {
    assert_eq!(truncate_fragment(b"/foo"), b("/foo"));
}

#[test]
fn truncate_fragment_only_slug() {
    assert_eq!(truncate_fragment(b"#foo"), b(""));
}

#[test]
fn truncate_stops_at_first_hash() {
    assert_eq!(truncate_fragment(b"/a#b#c"), b("/a"));
}

#[test]
fn resolve_known_slug() {
    assert_eq!(
        resolve(&sample_sitemap(), DOCS, b"guide"),
        Some(b("https://motioncanvas.io/docs/guide"))
    );
}

#[test]
fn resolve_missing_slug() {
    assert_eq!(resolve(&sample_sitemap(), DOCS, b"missing"), None);
}

#[test]
fn resolve_keeps_fragment_in_url() {
    let sitemap = vec![b("https://x/docs/foo")];
    assert_eq!(
        resolve(&sitemap, b"https://x/docs", b"foo#bar"),
        Some(b("https://x/docs/foo#bar"))
    );
}

#[test]
fn resolve_fragment_excluded_from_match() {
    let sitemap = vec![b("https://x/docs/other")];
    assert_eq!(resolve(&sitemap, b"https://x/docs", b"foo#bar"), None);
}

#[test]
fn resolve_empty_slug_needs_root_entry() {
    assert_eq!(
        resolve(&sample_sitemap(), DOCS, b""),
        Some(b("https://motioncanvas.io/docs/"))
    );
    let no_root = vec![b("https://motioncanvas.io/docsextra")];
    assert_eq!(resolve(&no_root, DOCS, b""), None);
}

#[test]
fn resolve_bare_fragment_matches_root() {
    assert_eq!(
        resolve(&sample_sitemap(), DOCS, b"#install"),
        Some(b("https://motioncanvas.io/docs/#install"))
    );
}

#[test]
fn validate_checks_namespace_prefix() {
    assert!(validate_slug(&sample_sitemap(), DOCS, b"guide"));
    assert!(validate_slug(&sample_sitemap(), DOCS, b"gui"));
    assert!(!validate_slug(&sample_sitemap(), DOCS, b"missing"));
    assert!(!validate_slug(&sample_sitemap(), API, b"guide"));
}

#[test]
fn autocomplete_excludes_root_and_strips_prefix() {
    assert_eq!(autocomplete(&sample_sitemap(), DOCS, b""), vec![b("/guide")]);
}

#[test]
fn autocomplete_filters_by_substring() {
    assert_eq!(
        autocomplete(&sample_sitemap(), DOCS, b"gui"),
        vec![b("/guide")]
    );
    assert_eq!(autocomplete(&sample_sitemap(), DOCS, b"zzz"), Vec::<Vec<u8>>::new());
}

#[test]
fn autocomplete_api_root_excluded() {
    assert_eq!(
        autocomplete(&sample_sitemap(), API, b""),
        Vec::<Vec<u8>>::new()
    );
}

#[test]
fn autocomplete_keeps_document_order() {
    let sitemap = vec![
        b("https://x/docs/b"),
        b("https://x/docs/a"),
        b("https://x/docs/c"),
    ];
    assert_eq!(
        autocomplete(&sitemap, b"https://x/docs", b""),
        vec![b("/b"), b("/a"), b("/c")]
    );
}

#[test]
fn error_keeps_message() {
    let e = XmlFetchError::new("connection reset");
    assert_eq!(e.message(), "connection reset");
}

#[test]
fn data_holds_snapshot() {
    let data = Data { sitemap: sample_sitemap() };
    assert_eq!(data.sitemap.len(), 3);
}
