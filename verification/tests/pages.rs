use rendering::cmark::{parse_page, render_events};
use rendering::context::{InsertAnchor, RenderContext};
use rendering::error::Error;
use rendering::headings::Heading;
use rendering::links::{InternalLinks, ResolvedLink};
use rendering::markdown::{draft_page, finish_page, markdown_to_html, old_style_links, Rendered};
use rendering::syntaxes::{get_highlighter, highlight, Config};
use syntect::parsing::SyntaxSet;

const PERMALINK: &str = "https://example.com/page/";

fn config(highlight_code: bool) -> Config {
    if highlight_code {
        Config::with_default_syntaxes(true)
    } else {
        Config { highlight_code, syntax_set: SyntaxSet::new(), extra_syntax_set: None }
    }
}

fn resolve(link: &str) -> Option<ResolvedLink> {
    match link {
        "@/about.md" => {
            Some(ResolvedLink { permalink: "https://example.com/about/".to_string(), anchor: None })
        }
        "@/about.md#us" => Some(ResolvedLink {
            permalink: "https://example.com/about/#us".to_string(),
            anchor: Some(("about.md".to_string(), "us".to_string())),
        }),
        _ => None,
    }
}

fn slugify(title: &str) -> String {
    title.to_lowercase().replace(' ', "-")
}

fn anchor(context: tera::Context) -> Result<String, String> {
    let id = context.get("id").unwrap().as_str().unwrap().to_string();
    let level = context.get("level").unwrap().as_u64().unwrap();
    Ok(format!("<a href=\"#{}\">{}</a>", id, level))
}

fn render_with(
    content: &str,
    config: &Config,
    insert_anchor: InsertAnchor,
) -> Result<Rendered, Error> {
    let context = RenderContext { config, current_page_permalink: PERMALINK, insert_anchor };
    markdown_to_html(content, &context, resolve, slugify, anchor, |headings: Vec<Heading>| headings)
}

fn render(content: &str) -> Result<Rendered, Error> {
    render_with(content, &config(false), InsertAnchor::Never)
}

fn body(content: &str) -> String {
    render(content).unwrap().body
}

#[test]
fn plain_page() {
    let page = render("Hello *world*\n").unwrap();
    assert_eq!(page.body, "<p>Hello <em>world</em></p>\n");
    assert_eq!(page.summary_len, None);
    assert!(page.toc.is_empty());
    assert!(page.internal_links_with_anchors.is_empty());
    assert!(page.external_links.is_empty());
    assert_eq!(body(""), "");
}

#[test]
fn extensions_are_on() {
    assert!(body("a | b\n--|--\n1 | 2\n").contains("<table>"));
    assert_eq!(body("~~a~~\n"), "<p><del>a</del></p>\n");
    assert!(body("- [x] a\n").contains("type=\"checkbox\" checked"));
    assert!(body("a[^1]\n\n[^1]: b\n").contains("footnote-reference"));
    assert!(body("a[^1]\n").contains("footnote-reference"));
}

#[test]
fn headings_get_ids() {
    let page = render("# My Title\n\n## Example\n\n## Example\n\n## Example\n").unwrap();
    assert_eq!(
        page.body,
        "<h1 id=\"my-title\">My Title</h1>\n<h2 id=\"example\">Example</h2>\n\
         <h2 id=\"example-1\">Example</h2>\n<h2 id=\"example-2\">Example</h2>\n"
    );
    assert_eq!(page.toc.len(), 4);
    assert_eq!(page.toc[3].permalink, "https://example.com/page/#example-2");
    assert_eq!(page.toc[3].title, "Example");
    assert_eq!(page.toc[3].level, 2);
}

#[test]
fn ids_of_the_page_come_first() {
    let page = render("# A\n\n# Other {#a}\n\n# A\n").unwrap();
    assert_eq!(
        page.body,
        "<h1 id=\"a-1\">A</h1>\n<h1 id=\"a\">Other</h1>\n<h1 id=\"a-2\">A</h1>\n"
    );
    assert_eq!(page.toc[1].title, "Other");
}

#[test]
fn anchor_links_left_right_or_not_at_all() {
    let config = config(false);
    let left = render_with("## A b\n", &config, InsertAnchor::Left).unwrap();
    assert_eq!(left.body, "<h2 id=\"a-b\"><a href=\"#a-b\">2</a>A b</h2>\n");
    let right = render_with("## A b\n", &config, InsertAnchor::Right).unwrap();
    assert_eq!(right.body, "<h2 id=\"a-b\">A b<a href=\"#a-b\">2</a></h2>\n");
    let never = render_with("## A b\n", &config, InsertAnchor::Never).unwrap();
    assert_eq!(never.body, "<h2 id=\"a-b\">A b</h2>\n");
}

#[test]
fn failing_anchor_template() {
    let config = config(false);
    let context = RenderContext {
        config: &config,
        current_page_permalink: PERMALINK,
        insert_anchor: InsertAnchor::Left,
    };
    let fail = |_: tera::Context| -> Result<String, String> { Err("boom".to_string()) };
    let nest = |headings: Vec<Heading>| headings;
    let r = markdown_to_html("# A\n\n[b]()\n", &context, resolve, slugify, fail, nest);
    match r {
        Err(Error::AnchorTemplate(reason)) => assert_eq!(reason, "boom"),
        _ => panic!("no error"),
    }
    let r = markdown_to_html("no heading", &context, resolve, slugify, fail, nest);
    assert!(r.is_ok());
    assert_eq!(
        Error::AnchorTemplate("boom".to_string()).message(),
        "Failed to render anchor link template"
    );
}

#[test]
fn table_of_contents_comes_from_the_site() {
    let config = config(false);
    let context = RenderContext {
        config: &config,
        current_page_permalink: PERMALINK,
        insert_anchor: InsertAnchor::Never,
    };
    let nest = |mut headings: Vec<Heading>| {
        headings.reverse();
        headings
    };
    let page = markdown_to_html("# A\n\n# B\n", &context, resolve, slugify, anchor, nest).unwrap();
    let ids: Vec<&str> = page.toc.iter().map(|h| h.id.as_str()).collect();
    assert_eq!(ids, ["b", "a"]);
}

#[test]
fn summary_in_bytes() {
    let page = render("Caf\u{e9}\n\n<!-- more -->\n\nRest\n").unwrap();
    assert_eq!(
        page.body,
        "<p>Caf\u{e9}</p>\n<span id=\"continue-reading\"></span>\n<p>Rest</p>\n"
    );
    assert_eq!(page.summary_len, Some(13));
    assert!(page.body[13..].starts_with("<span id=\"continue-reading\"></span>"));
}

#[test]
fn only_the_first_summary_end_counts() {
    let page = render("a\n\n<!-- more -->\n\nb\n\n<!-- more -->\n").unwrap();
    assert_eq!(page.summary_len, Some(9));
}

#[test]
fn no_summary_without_its_end() {
    assert_eq!(render("<span id=\"continue-reading\"></span>\n").unwrap().summary_len, None);
    assert_eq!(render("<!--more-->\n").unwrap().summary_len, None);
}

#[test]
fn summary_end_in_an_image_is_text() {
    let page = render("![<!-- more -->](a.png)\n").unwrap();
    assert_eq!(page.summary_len, None);
    assert!(page.body.contains("&lt;span id="));
}

#[test]
fn images_elsewhere_do_not_matter_to_the_summary() {
    let page = render("![a <b>c</b>](d.png) <i>e</i>\n\n<!-- more -->\n\n![f](g.png)\n").unwrap();
    assert!(page.body.contains("<i>e</i>"));
    assert!(!page.body.contains("<b>c</b>"));
    let n = page.body.find("<span id=\"continue-reading\">").unwrap();
    assert_eq!(page.summary_len, Some(n));
}

#[test]
fn markup_within_a_line() {
    let page = render("a <!-- more --> b <pre data-shortcode>c</pre>\n").unwrap();
    assert!(page.body.starts_with("<p>a <span id=\"continue-reading\"></span> b "));
    assert_eq!(page.summary_len, Some(5));
}

#[test]
fn code_that_opens_before_a_table_in_a_list() {
    let html = body("- `a\n  c\n  # h\n  | |\n  |-|\n  # k\n  b`\n");
    assert!(html.contains("<h1 id=\"h\">h</h1>"));
    assert!(html.contains("<table>"));
    assert!(html.contains("<h1 id=\"k\">k</h1>"));
}

#[test]
fn links_of_all_kinds() {
    let page = render(
        "[a](@/about.md) [b](@/about.md#us) [c](https://x.org/) [d](file.zip) [e](../up) \
         <user@example.com> [f](mailto:me@x.org) [g](http://y.org)\n",
    )
    .unwrap();
    assert_eq!(
        page.body,
        "<p><a href=\"https://example.com/about/\">a</a> \
         <a href=\"https://example.com/about/#us\">b</a> \
         <a href=\"https://x.org/\">c</a> \
         <a href=\"https://example.com/page/file.zip\">d</a> \
         <a href=\"../up\">e</a> \
         <a href=\"mailto:user@example.com\">user@example.com</a> \
         <a href=\"mailto:me@x.org\">f</a> \
         <a href=\"http://y.org\">g</a></p>\n"
    );
    assert_eq!(
        page.internal_links_with_anchors,
        [("about.md".to_string(), "us".to_string())]
    );
    assert_eq!(page.external_links, ["https://x.org/", "http://y.org"]);
}

#[test]
fn external_links_are_noted_as_often_as_they_come() {
    let page = render("[a](http://x) [b](http://x)\n").unwrap();
    assert_eq!(page.external_links, ["http://x", "http://x"]);
}

#[test]
fn images_beside_the_page() {
    assert_eq!(
        body("![a](b.png \"c\") ![d](/e.png)\n"),
        "<p><img src=\"https://example.com/page/b.png\" alt=\"a\" title=\"c\" /> \
         <img src=\"/e.png\" alt=\"d\" /></p>\n"
    );
}

#[test]
fn links_without_a_url() {
    let e = render("[a]()\n").unwrap_err();
    assert!(matches!(e, Error::MissingUrl));
    assert_eq!(e.message(), "There is a link that is missing a URL");
}

#[test]
fn links_to_nowhere() {
    let e = render("[a](@/lost.md)\n").unwrap_err();
    assert_eq!(e.message(), "Relative link @/lost.md not found.");
    match e {
        Error::LinkNotFound(link) => assert_eq!(link, "@/lost.md"),
        _ => panic!("wrong error"),
    }
}

#[test]
fn the_last_bad_link_is_reported() {
    assert!(matches!(render("[a]() [b](@/lost.md)\n"), Err(Error::LinkNotFound(_))));
    assert!(matches!(render("[b](@/lost.md) [a]()\n"), Err(Error::MissingUrl)));
    assert!(matches!(render("[b](@/lost.md) [a](http://x)\n"), Err(Error::LinkNotFound(_))));
}

#[test]
fn code_without_highlighting() {
    assert_eq!(body("```rust\nlet <x>;\n```\n"), "<pre><code>let &lt;x&gt;;\n</code></pre>\n");
    assert_eq!(body("    indented\n"), "<pre><code>indented\n</code></pre>\n");
}

#[test]
fn fenced_code_becomes_a_table() {
    let config = config(true);
    let page = render_with(
        "```rust line-numbers title=T mark1_start=x mark1_end=y mark1_class=m\nlet x = y;\n```\n",
        &config,
        InsertAnchor::Never,
    )
    .unwrap();
    let (syntax, _) = get_highlighter("rust", &config);
    let code = highlight(&syntax, &config.syntax_set, "let x = y;\n");
    let marked = code.replace("x", "<span class=\"m\">").replace("y", "</span>");
    let expected = format!(
        "<div class=\"mycode-block\"><table class=\"codeBox\"><tbody>\
         <tr><td class=\"codeTitle\" colspan=\"2\">T</td></tr>\
         <tr><td class=\"lineNumbers\"><div class=\"lineNumbersDiv\"><pre>1\n</pre></div></rd>\
         <td class=\"sourceCode\"><pre class=\"code\">{}\
         </td></pre></tr></tbody></table></div>",
        marked
    );
    assert_eq!(page.body, expected);
}

#[test]
fn unknown_languages_show_plain_text() {
    let page = render_with("```\n<a>\n```\n", &config(true), InsertAnchor::Never).unwrap();
    assert_eq!(
        page.body,
        "<div class=\"mycode-block\"><table class=\"codeBox\"><tbody>\
         <tr><td class=\"sourceCode sourceCodeWrap\"><pre class=\"code\">\
         <span class=\"text plain\">&lt;a&gt;\n</span></td></pre></tr></tbody></table></div>"
    );
}

#[test]
fn indented_code_is_not_highlighted() {
    let page = render_with("    <a>\n", &config(true), InsertAnchor::Never).unwrap();
    assert_eq!(page.body, "&lt;a&gt;\n</td></pre></tr></tbody></table></div>");
}

#[test]
fn code_after_code_starts_afresh() {
    let config = config(true);
    let one = "```txt title=T\na\n```\n";
    let two = "```txt\nb\n```\n";
    let page = |content: &str| render_with(content, &config, InsertAnchor::Never).unwrap().body;
    assert_eq!(page(&format!("{}{}", one, two)), format!("{}{}", page(one), page(two)));
}

#[test]
fn shortcodes_come_out_bare() {
    assert_eq!(body("<pre data-shortcode><b>x</b></pre>\n"), "<b>x</b>\n");
    let html = body("<pre data-shortcode><b>\nx\n</b></pre>\n\n<pre>kept</pre>\n");
    assert!(html.starts_with("<b>\nx\n</b>"));
    assert!(html.contains("<pre>kept</pre>"));
}

#[test]
fn pages_without_a_rendering() {
    let config = config(true);
    let outcome = |content: &str| render_with(content, &config, InsertAnchor::Never);
    assert!(matches!(
        outcome("```txt mark99999999999999999999999_start=a\nx\n```\n"),
        Err(Error::Unrenderable)
    ));
    assert!(matches!(outcome("```\r\na\r\nb\r\n```\r\n"), Err(Error::Unrenderable)));
    assert!(matches!(outcome(&"# a\n\n".repeat(257)), Err(Error::Unrenderable)));
    assert!(outcome(&"# a\n\n".repeat(256)).is_ok());
    assert_eq!(Error::Unrenderable.message(), "The page has no rendering");
    let bare = Config { highlight_code: true, syntax_set: SyntaxSet::new(), extra_syntax_set: None };
    let r = render_with("```rust\na\n```\n", &bare, InsertAnchor::Never);
    assert!(matches!(r, Err(Error::Unrenderable)));
}

#[test]
fn links_in_the_old_style() {
    assert_eq!(
        old_style_links("[a](./b.md) [c](@/d.md) [e](./f.html) [g](./h.md#i)\n"),
        ["./b.md", "./h.md#i"]
    );
    assert_eq!(body("[a](./b.md)\n"), "<p><a href=\"./b.md\">a</a></p>\n");
}

#[test]
fn events_as_they_come() {
    let content = "# A\n\n```x y\nb\n```\n\n- [c](d \"e\") ![f](g)\n\n<i>h</i> <j@k.org>\n";
    let mut expected = String::new();
    let mut options = pulldown_cmark::Options::empty();
    options.insert(pulldown_cmark::Options::ENABLE_TABLES);
    options.insert(pulldown_cmark::Options::ENABLE_OLD_FOOTNOTES);
    options.insert(pulldown_cmark::Options::ENABLE_STRIKETHROUGH);
    options.insert(pulldown_cmark::Options::ENABLE_TASKLISTS);
    let parser = pulldown_cmark::Parser::new_ext(content, options);
    pulldown_cmark::html::push_html(&mut expected, parser);
    assert_eq!(render_events(parse_page(content)), expected);
}

#[test]
fn a_page_from_given_answers() {
    let config = config(false);
    let context = RenderContext {
        config: &config,
        current_page_permalink: PERMALINK,
        insert_anchor: InsertAnchor::Right,
    };
    let links = InternalLinks { entries: Vec::new() };
    let draft = draft_page(parse_page("# A {#x}\n\n## B\n"), &context, &links).unwrap();
    assert_eq!(draft.manual_ids, ["x"]);
    assert_eq!(draft.titles, ["A", "B"]);
    assert_eq!(draft.events.len(), 6);
    let ids = vec!["x".to_string(), "b".to_string()];
    let anchors = vec!["1".to_string(), "2".to_string()];
    let page = finish_page(draft, InsertAnchor::Right, &ids, anchors, Vec::new()).unwrap();
    assert_eq!(page.body, "<h1 id=\"x\">A1</h1>\n<h2 id=\"b\">B2</h2>\n");
}
