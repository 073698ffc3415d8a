use sitemap_resolver::sitemap::parse_sitemap;

fn b(s: &str) -> Vec<u8> {
    s.as_bytes().to_vec()
}

#[test]
fn parse_two_entries_in_order() {
    let xml = "<?xml version=\"1.0\" encoding=\"UTF-8\"?>\n\
               <urlset xmlns=\"http://www.sitemaps.org/schemas/sitemap/0.9\">\n\
                 <url><loc>https://motioncanvas.io/docs/</loc></url>\n\
                 <url><loc>https://motioncanvas.io/docs/guide</loc></url>\n\
               </urlset>";
    let entries = parse_sitemap(xml.as_bytes()).unwrap();
    assert_eq!(
        entries,
        vec![
            b("https://motioncanvas.io/docs/"),
            b("https://motioncanvas.io/docs/guide"),
        ]
    );
}

#[test]
fn parse_keeps_document_order() {
    let xml = "<urlset><url><loc>c</loc></url><url><loc>a</loc></url><url><loc>b</loc></url></urlset>";
    let entries = parse_sitemap(xml.as_bytes()).unwrap();
    assert_eq!(entries, vec![b("c"), b("a"), b("b")]);
}

#[test]
fn parse_without_declaration() {
    let xml = "<urlset><url><loc>https://x/a</loc></url></urlset>";
    assert_eq!(parse_sitemap(xml.as_bytes()).unwrap(), vec![b("https://x/a")]);
}

#[test]
fn parse_empty_urlset() {
    let xml = "<urlset></urlset>";
    assert_eq!(parse_sitemap(xml.as_bytes()).unwrap(), Vec::<Vec<u8>>::new());
}

#[test]
fn parse_tolerates_other_url_children() {
    let xml = "<urlset>\
               <url><loc>https://x/a</loc><changefreq>weekly</changefreq><priority>0.5</priority></url>\
               <url><lastmod>2023-01-01</lastmod><loc>https://x/b</loc></url>\
               </urlset>";
    let entries = parse_sitemap(xml.as_bytes()).unwrap();
    assert_eq!(entries, vec![b("https://x/a"), b("https://x/b")]);
}

#[test]
fn parse_tolerates_whitespace() {
    let xml = "  \n\t<urlset>\r\n  <url>\n    <loc>https://x/a</loc>\n  </url>\n</urlset>\n  ";
    assert_eq!(parse_sitemap(xml.as_bytes()).unwrap(), vec![b("https://x/a")]);
}

#[test]
fn parse_rejects_missing_root() {
    let r = parse_sitemap(b"<foo></foo>");
    assert_eq!(r.unwrap_err().message(), "missing <urlset> root element");
}

#[test]
fn parse_rejects_empty_input() {
    let r = parse_sitemap(b"   ");
    assert_eq!(r.unwrap_err().message(), "missing <urlset> root element");
}

#[test]
fn parse_rejects_unclosed_declaration() {
    let r = parse_sitemap(b"<?xml version=\"1.0\"");
    assert_eq!(r.unwrap_err().message(), "unclosed XML declaration");
}

#[test]
fn parse_rejects_unclosed_root_tag() {
    let r = parse_sitemap(b"<urlset xmlns=\"x\"");
    assert_eq!(r.unwrap_err().message(), "unclosed <urlset> start tag");
}

#[test]
fn parse_rejects_unclosed_url() {
    let r = parse_sitemap(b"<urlset><url><loc>a</loc>");
    assert_eq!(r.unwrap_err().message(), "unclosed <url> element");
}

#[test]
fn parse_rejects_url_without_loc() {
    let r = parse_sitemap(b"<urlset><url></url></urlset>");
    assert_eq!(r.unwrap_err().message(), "<url> element without a <loc>");
}

#[test]
fn parse_rejects_unclosed_loc() {
    let r = parse_sitemap(b"<urlset><url><loc>a</url></urlset>");
    assert_eq!(r.unwrap_err().message(), "unclosed <loc> element");
}

#[test]
fn parse_rejects_trailing_content() {
    let r = parse_sitemap(b"<urlset></urlset>junk");
    assert_eq!(r.unwrap_err().message(), "content after </urlset>");
}

#[test]
fn parse_rejects_stray_content_in_urlset() {
    let r = parse_sitemap(b"<urlset>bogus</urlset>");
    assert_eq!(r.unwrap_err().message(), "unexpected content inside <urlset>");
}
