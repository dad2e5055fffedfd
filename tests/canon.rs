use webcrawler::canon::{sanitize_link, canonical_from_resolved, canonicalize, has_web_scheme, strip_fragment};

#[test]
fn canonicalize_filters_schemes() {
    let base = "https://example.com";
    assert_eq!(canonicalize("mailto:a@b.com", base), None);
    assert_eq!(canonicalize("javascript:void(0)", base), None);
    assert_eq!(canonicalize("ftp://example.com/file", base), None);
    assert_eq!(canonicalize("/about", base), Some("https://example.com/about".to_string()));
}

#[test]
fn canonicalize_is_idempotent_on_examples() {
    let base = "https://example.com/dir/page.html";
    for raw in ["/about#team", "other.html", "HTTP://Example.COM/x", "https://a.org/?q=1#f", "//cdn.net/lib.js"] {
        let once = canonicalize(raw, base).unwrap();
        assert_eq!(canonicalize(&once, base), Some(once.clone()));
    }
}

#[test]
fn canonicalize_strips_fragment_and_resolves() {
    assert_eq!(
        canonicalize("#section", "https://example.com/a/b"),
        Some("https://example.com/a/b".to_string())
    );
    assert_eq!(
        canonicalize("c.png#x", "https://example.net/a/b.html"),
        Some("https://example.net/a/c.png".to_string())
    );
}

#[test]
fn canonicalize_rejects_malformed() {
    assert_eq!(canonicalize("http://[::1", "https://example.com"), None);
    assert_eq!(canonicalize("/x", "not a base"), None);
}

#[test]
fn sanitize_link_normalizes() {
    assert_eq!(sanitize_link("https://example.com"), Some("https://example.com/".to_string()));
    assert_eq!(sanitize_link("https://example.com/p#frag"), Some("https://example.com/p".to_string()));
    assert_eq!(sanitize_link("mailto:a@b.com"), None);
    assert_eq!(sanitize_link("ht!tp://invalid-url"), None);
}

#[test]
fn canonical_from_resolved_cases() {
    assert_eq!(canonical_from_resolved(None), None);
    assert_eq!(canonical_from_resolved(Some("ftp://a/".to_string())), None);
    assert_eq!(
        canonical_from_resolved(Some("http://a/b#c#d".to_string())),
        Some("http://a/b".to_string())
    );
    assert_eq!(canonical_from_resolved(Some("https://a/".to_string())), Some("https://a/".to_string()));
}

#[test]
fn web_scheme_check() {
    assert!(has_web_scheme("http://a/"));
    assert!(has_web_scheme("https://a/"));
    assert!(!has_web_scheme("https"));
    assert!(!has_web_scheme("httpx://a/"));
    assert!(!has_web_scheme("ftp://a/"));
    assert!(!has_web_scheme(""));
}

#[test]
fn fragment_stripping() {
    assert_eq!(strip_fragment("https://a/b#c"), "https://a/b");
    assert_eq!(strip_fragment("https://a/b"), "https://a/b");
    assert_eq!(strip_fragment("#"), "");
}
