use rendering::cmark::{parse_page, MdEvent};
use rendering::context::InsertAnchor;
use rendering::headings::{
    anchor_context, assign_ids, check_headings, find_anchor, get_heading_refs, get_text, get_titles,
    has_anchor, insert_anchors, list_headings, split_id, tag_headings, take_manual_ids, HeadingRef,
};

fn strings(v: &[&str]) -> Vec<String> {
    v.iter().map(|s| s.to_string()).collect()
}

#[test]
fn anchors_count_up() {
    assert_eq!(find_anchor(&[], "example".to_string(), 0), "example");
    assert_eq!(find_anchor(&strings(&["example"]), "example".to_string(), 0), "example-1");
    assert_eq!(
        find_anchor(&strings(&["example-1", "example"]), "example".to_string(), 0),
        "example-2"
    );
    assert_eq!(
        find_anchor(&strings(&["example", "example-2"]), "example".to_string(), 0),
        "example-1"
    );
    assert_eq!(find_anchor(&strings(&["example-1"]), "example".to_string(), 0), "example");
    assert_eq!(find_anchor(&[], "example".to_string(), 3), "example-4");
}

#[test]
fn anchors_run_out() {
    let mut anchors = strings(&["a"]);
    for k in 1..255 {
        anchors.push(format!("a-{}", k));
    }
    assert!(has_anchor(&anchors, "a"));
    assert_eq!(find_anchor(&anchors, "a".to_string(), 0), "a-255");
    anchors.push("a-255".to_string());
    assert!(!has_anchor(&anchors, "a"));
    assert!(has_anchor(&anchors, "b"));
}

#[test]
fn ids_at_the_end_of_a_text() {
    let split = |t: &str| split_id(t);
    assert_eq!(split("Heading text {#hash}"), Some(("Heading text".to_string(), "hash".to_string())));
    assert_eq!(split("A   {#b c}"), Some(("A".to_string(), "b c".to_string())));
    assert_eq!(split("{#b}"), Some((String::new(), "b".to_string())));
    assert_eq!(split("A{#}"), Some(("A".to_string(), String::new())));
    assert_eq!(split("A {#b} {#c}"), Some(("A".to_string(), "b} {#c".to_string())));
    assert_eq!(split("\u{e9} {#\u{e8}}"), Some(("\u{e9}".to_string(), "\u{e8}".to_string())));
    assert_eq!(split("A {#b} "), None);
    assert_eq!(split("A {b}"), None);
    assert_eq!(split("A {#b"), None);
    assert_eq!(split("}"), None);
    assert_eq!(split(""), None);
}

#[test]
fn new_headings_have_no_end() {
    let h = HeadingRef::new(3, 2);
    assert_eq!((h.start_idx, h.end_idx, h.level, h.id), (3, 0, 2, None));
}

#[test]
fn headings_of_a_page() {
    let events = parse_page("# A *b* `c`\n\ntext\n\n### D\n");
    assert!(check_headings(&events));
    let refs = get_heading_refs(&events);
    assert_eq!(refs.len(), 2);
    assert_eq!((refs[0].start_idx, refs[0].level), (0, 1));
    assert_eq!(refs[1].level, 3);
    assert!(refs[0].end_idx < refs[1].start_idx);
    assert!(refs[1].end_idx == refs[1].start_idx + 2);
    assert_eq!(get_titles(&events, &refs), ["A b c", "D"]);
    assert_eq!(get_text(&events), "A b ctextD");
}

#[test]
fn unclosed_headings_are_noticed() {
    let mut events = parse_page("# A\n");
    let end = events.pop();
    assert!(!check_headings(&events));
    events.insert(0, end.unwrap());
    assert!(!check_headings(&events));
    assert!(check_headings(&Vec::new()));
}

#[test]
fn ids_avoid_each_other() {
    let mut events = parse_page("# A\n\n# B {#a}\n\n# A\n\n# C {#a}\n");
    let mut refs = get_heading_refs(&events);
    let manual = take_manual_ids(&mut events, &mut refs);
    assert_eq!(manual, ["a", "a"]);
    assert_eq!(refs[1].id.as_deref(), Some("a"));
    assert_eq!(refs[0].id, None);
    assert_eq!(get_titles(&events, &refs), ["A", "B", "A", "C"]);
    let ids = assign_ids(&manual, &refs, &strings(&["a", "", "a", ""]));
    assert_eq!(ids, ["a-1", "a", "a-2", "a"]);
}

#[test]
fn ids_stop_where_no_anchor_is_left() {
    let content = "# a\n\n".repeat(258);
    let events = parse_page(&content);
    let refs = get_heading_refs(&events);
    let slugs = vec!["a".to_string(); 258];
    let ids = assign_ids(&Vec::new(), &refs, &slugs);
    assert_eq!(ids.len(), 256);
    assert_eq!(ids[255], "a-255");
}

#[test]
fn headings_get_tags_and_are_listed() {
    let mut events = parse_page("## A\n\n# B\n");
    let refs = get_heading_refs(&events);
    let ids = strings(&["a", "b"]);
    let titles = get_titles(&events, &refs);
    tag_headings(&mut events, &refs, &ids);
    match &events[refs[0].start_idx] {
        MdEvent::Html(html) => assert_eq!(html, "<h2 id=\"a\">"),
        _ => panic!("no tag"),
    }
    let list = list_headings(&refs, &ids, "https://x/p/", &titles);
    assert_eq!(list.len(), 2);
    assert_eq!(list[1].level, 1);
    assert_eq!(list[1].id, "b");
    assert_eq!(list[1].permalink, "https://x/p/#b");
    assert_eq!(list[1].title, "B");
    assert!(list[1].children.is_empty());
}

fn htmls(events: &[MdEvent]) -> Vec<(usize, String)> {
    let mut found = Vec::new();
    for (i, event) in events.iter().enumerate() {
        if let MdEvent::Html(html) = event {
            found.push((i, html.clone()));
        }
    }
    found
}

#[test]
fn anchor_links_on_either_side() {
    for (insert, places) in [(InsertAnchor::Left, [1, 5]), (InsertAnchor::Right, [2, 6])].iter() {
        let mut events = parse_page("# A\n\n# B\n");
        let n = events.len();
        let refs = get_heading_refs(&events);
        insert_anchors(&mut events, *insert, &refs, strings(&["x", "y"]));
        assert_eq!(events.len(), n + 2);
        assert_eq!(
            htmls(&events),
            [(places[0], "x".to_string()), (places[1], "y".to_string())]
        );
    }
}

#[test]
fn anchor_template_gets_id_and_level() {
    let context = anchor_context("my-id", 3);
    assert_eq!(context.get("id").unwrap().as_str(), Some("my-id"));
    assert_eq!(context.get("level").unwrap().as_u64(), Some(3));
    assert!(context.get("title").is_none());
}
