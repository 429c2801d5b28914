use pulldown_cmark::LinkType;
use regex::Regex;
use rendering::cmark::LinkKind;
use rendering::error::Error;
use rendering::links::{
    fix_link, is_colocated_asset_link, is_external_link, is_internal_link, is_old_internal_link,
    starts_with_schema, InternalLinks, ResolvedLink,
};

#[test]
fn test_starts_with_schema() {
    // registered
    assert!(starts_with_schema("https://example.com/"));
    assert!(starts_with_schema("ftp://example.com/"));
    assert!(starts_with_schema("mailto:user@example.com"));
    assert!(starts_with_schema("xmpp:node@example.com"));
    assert!(starts_with_schema("tel:18008675309"));
    assert!(starts_with_schema("sms:18008675309"));
    assert!(starts_with_schema("h323:user@example.com"));

    // arbitrary
    assert!(starts_with_schema("zola:post?content=hi"));

    // case-insensitive
    assert!(starts_with_schema("MailTo:user@example.com"));
    assert!(starts_with_schema("MAILTO:user@example.com"));
}

#[test]
fn test_is_external_link() {
    assert!(is_external_link("http://example.com/"));
    assert!(is_external_link("https://example.com/"));
    assert!(is_external_link("https://example.com/index.html#introduction"));

    assert!(!is_external_link("mailto:user@example.com"));
    assert!(!is_external_link("tel:18008675309"));

    assert!(!is_external_link("#introduction"));

    assert!(!is_external_link("http.jpg"))
}

#[test]
fn schema_follows_its_pattern() {
    let pattern = Regex::new(r"^[0-9A-Za-z\-]+:").unwrap();
    let links = [
        "", ":", "a:", "-:", "a", "a b:", "\u{e9}:", "a\u{e9}:", "x-y-1:z", "a_b:c", "a.b:c", "a:b:c",
        "A9-z:", "\n:", "a\n:", "@/a.md", "./a.md", "#a", "a/b:c", "\u{3b1}:b", "http", "http:",
    ];
    for link in links.iter() {
        assert_eq!(starts_with_schema(link), pattern.is_match(link), "{:?}", link);
    }
}

#[test]
fn schema_does_not_depend_on_case() {
    for link in ["HTTP://a", "Ab-9:c", "no schema", "tel", "É:"].iter() {
        assert_eq!(starts_with_schema(link), starts_with_schema(&link.to_ascii_lowercase()));
        assert_eq!(starts_with_schema(link), starts_with_schema(&link.to_ascii_uppercase()));
    }
}

#[test]
fn colocated_assets_are_plain_file_names() {
    assert!(is_colocated_asset_link("image.jpg"));
    assert!(is_colocated_asset_link("#anchor"));
    assert!(is_colocated_asset_link(""));
    assert!(!is_colocated_asset_link("../image.jpg"));
    assert!(!is_colocated_asset_link("/image.jpg"));
    assert!(!is_colocated_asset_link("http://image.jpg"));
    assert!(!is_colocated_asset_link("mailto:user@example.com"));
}

#[test]
fn external_links_are_not_local() {
    for link in ["http:", "https:", "http:a", "https://a/b"].iter() {
        assert!(is_external_link(link));
        assert!(starts_with_schema(link));
        assert!(!is_colocated_asset_link(link));
        assert!(!is_internal_link(link));
    }
    assert!(!is_external_link("HTTP://a"));
}

#[test]
fn internal_links_old_and_new() {
    assert!(is_internal_link("@/pages/about.md"));
    assert!(!is_internal_link("@pages"));
    assert!(!is_internal_link(" @/pages"));
    assert!(is_old_internal_link("./pages/about.md"));
    assert!(is_old_internal_link("./a.md#b"));
    assert!(!is_old_internal_link("./a.html"));
    assert!(!is_old_internal_link("../a.md"));
}

fn table() -> InternalLinks {
    let target = |permalink: &str, anchor: Option<(String, String)>| ResolvedLink {
        permalink: permalink.to_string(),
        anchor,
    };
    let anchor = Some(("a.md".to_string(), "s".to_string()));
    InternalLinks {
        entries: vec![
            ("@/a.md".to_string(), target("https://x/a/", None)),
            ("@/a.md#s".to_string(), target("https://x/a/#s", anchor)),
            ("@/a.md".to_string(), target("https://x/other/", None)),
        ],
    }
}

fn fixed(kind: &LinkKind, link: &str) -> (Result<String, Error>, usize, Vec<String>) {
    let mut anchors = vec![("old".to_string(), "anchor".to_string())];
    let mut external = vec!["old".to_string()];
    let r = fix_link(kind, link, "https://x/p/", &table(), &mut anchors, &mut external);
    assert_eq!(anchors[0], ("old".to_string(), "anchor".to_string()));
    assert_eq!(external[0], "old");
    if anchors.len() > 1 {
        assert_eq!(anchors[1], ("a.md".to_string(), "s".to_string()));
    }
    (r, anchors.len() - 1, external[1..].to_vec())
}

#[test]
fn destinations_of_links() {
    let inline = LinkKind::Other(LinkType::Inline);
    let cases = [
        ("@/a.md", "https://x/a/", 0),
        ("@/a.md#s", "https://x/a/#s", 1),
        ("file.zip", "https://x/p/file.zip", 0),
        ("#top", "https://x/p/#top", 0),
        ("/root", "/root", 0),
        ("tel:1", "tel:1", 0),
    ];
    for (link, destination, anchors) in cases.iter() {
        let (r, n, external) = fixed(&inline, link);
        assert_eq!(r.unwrap(), *destination);
        assert_eq!(n, *anchors);
        assert!(external.is_empty());
    }
    let (r, n, external) = fixed(&inline, "https://y/");
    assert_eq!(r.unwrap(), "https://y/");
    assert_eq!((n, external), (0, vec!["https://y/".to_string()]));
}

#[test]
fn email_addresses_stay_as_they_are() {
    for link in ["user@example.com", "@/a.md", "https://y/", "@/lost.md"].iter() {
        let (r, n, external) = fixed(&LinkKind::Email, link);
        assert_eq!(r.unwrap(), *link);
        assert_eq!((n, external.len()), (0, 0));
    }
}

#[test]
fn unlisted_internal_links_are_errors() {
    let (r, n, external) = fixed(&LinkKind::Other(LinkType::Autolink), "@/lost.md");
    assert_eq!(r.unwrap_err().message(), "Relative link @/lost.md not found.");
    assert_eq!((n, external.len()), (0, 0));
}
