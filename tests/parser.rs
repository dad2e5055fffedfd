use webcrawler::canon::sanitize_link;
use webcrawler::parser::{extract_links, extract_page, parse_html};

#[test]
fn test_parse_html() {
    let html = r#"
            <html>
                <head>
                    <title>Test Page</title>
                    <meta name="description" content="This is a test page.">
                </head>
                <body></body>
            </html>
        "#;

    let (title, description) = parse_html(html);
    assert_eq!(title, Some("Test Page".to_string()));
    assert_eq!(description, Some("This is a test page.".to_string()));
}

#[test]
fn test_extract_links() {
    let html = r#"
            <html>
                <body>
                    <a href="https://www.google.com">Google</a>
                    <a href="/about">About Us</a>
                    <a href="javascript:void(0)">Invalid Link</a>
                    <a href="mailto:test@example.com">Email</a>
                </body>
            </html>
        "#;

    let base_url = url::Url::parse("https://www.example.com").unwrap();
    let links = extract_links(html, base_url.as_str());

    assert_eq!(links.len(), 2);
    assert_eq!(links[0], "https://www.google.com/");
    assert_eq!(links[1], "https://www.example.com/about");
}

#[test]
fn test_sanitize_link() {
    let valid_http = "https://www.google.com";
    let valid_https = "https://www.example.com/about";
    let invalid_scheme = "javascript:void(0)";
    let invalid_url = "ht!tp://invalid-url";

    assert_eq!(sanitize_link(valid_http), Some("https://www.google.com/".to_string()));
    assert_eq!(sanitize_link(valid_https), Some(valid_https.to_string()));
    assert_eq!(sanitize_link(invalid_scheme), None);
    assert_eq!(sanitize_link(invalid_url), None);
}

#[test]
fn parse_html_without_title_or_description() {
    let (title, description) = parse_html("<html><body><p>x</p></body></html>");
    assert_eq!(title, None);
    assert_eq!(description, None);
}

#[test]
fn extract_page_reads_raw_hrefs_in_order() {
    let html = r#"<html><head><title>T</title></head><body>
        <a href="/a#x">A</a><a>none</a><a href="mailto:m@x.org">M</a></body></html>"#;
    let page = extract_page(html);
    assert_eq!(page.title, Some("T".to_string()));
    assert_eq!(page.description, None);
    assert_eq!(page.hrefs, vec!["/a#x".to_string(), "mailto:m@x.org".to_string()]);
}

#[test]
fn extract_links_drops_fragments() {
    let html = r#"<a href="/a#x">A</a><a href="page.html#top">B</a><a href="ftp://f.org/">F</a>"#;
    let links = extract_links(html, "https://site.org/dir/index.html");
    assert_eq!(
        links,
        vec!["https://site.org/a".to_string(), "https://site.org/dir/page.html".to_string()]
    );
}

#[test]
fn sanitize_link_accepts_plain_http() {
    assert_eq!(sanitize_link("http://x.org/p?q=1"), Some("http://x.org/p?q=1".to_string()));
    assert_eq!(sanitize_link("mailto:a@b.com"), None);
    assert_eq!(sanitize_link("/relative"), None);
    assert_eq!(sanitize_link("https://example.com/a#top"), Some("https://example.com/a".to_string()));
}
