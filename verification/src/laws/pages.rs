//! Laws of whole pages.

use crate::cmark::{EventView, ParseOptions, RawView, TagView};
use crate::context::{InsertAnchor, PageView, RenderContext};
use crate::error::{Error, ErrorView};
use crate::headings::{Heading, TemplateValue};
use crate::laws::{anchors, code, destinations, events, strings};
use crate::links::{InternalLinks, ResolvedLink, ResolvedView};
use crate::markdown::{Answers, DraftView, Rendered, RenderedView};
use crate::{cmark, code_block, context, error, headings, markdown, text, transform};
use vstd::prelude::*;

verus! {

// ---------------------------------------------------------------------------------------------
// Reading and writing

/// The events of a page are those that the parser finds with tables, footnotes, strikethrough and
/// task lists, in their order. Only their tags are opened.
pub proof fn lemma_page_events(content: Seq<char>)
    ensures
        ({
            let found = cmark::parsed_events(
                content,
                ParseOptions { tables: true, footnotes: true, strikethrough: true, tasklists: true },
            );
            let events = cmark::page_events(content);
            &&& events.len() == found.len()
            &&& forall|i: int|
                0 <= i < found.len() ==> #[trigger] events[i] == (match found[i] {
                    RawView::Start(tag) => EventView::Start(cmark::tag_parts(tag)),
                    RawView::End(end) => EventView::End(cmark::end_parts(end)),
                    RawView::Text(t) => EventView::Text(t),
                    RawView::Code(t) => EventView::Code(t),
                    RawView::Html(t) => EventView::Html(t),
                    RawView::InlineHtml(t) => EventView::InlineHtml(t),
                    RawView::Other(e) => EventView::Other(e),
                })
        }),
{
}

/// The HTML of events is what the writer makes of them, one after another, with their tags closed.
pub proof fn lemma_html<'a>(events: Seq<EventView<'a>>, written: Seq<RawView<'a>>)
    requires
        written.len() == events.len(),
        forall|i: int|
            0 <= i < events.len() ==> #[trigger] written[i] == (match events[i] {
                EventView::Start(tag) => RawView::Start(cmark::tag_whole(tag)),
                EventView::End(end) => RawView::End(cmark::end_whole(end)),
                EventView::Text(t) => RawView::Text(t),
                EventView::Code(t) => RawView::Code(t),
                EventView::Html(t) => RawView::Html(t),
                EventView::InlineHtml(t) => RawView::InlineHtml(t),
                EventView::Other(e) => RawView::Other(e),
            }),
    ensures
        cmark::html_of(events) == cmark::pushed_html(written),
{
    assert(events.map_values(|e: EventView<'a>| cmark::closed(e)) =~= written);
}

// ---------------------------------------------------------------------------------------------
// Links of a page

/// The internal links that the site is asked for are all those that begin with `@/` and are no email
/// addresses, in their order.
pub proof fn lemma_internal_destinations(a: Seq<EventView>, b: Seq<EventView>)
    ensures
        markdown::internal_destinations(a + b) == markdown::internal_destinations(a)
            + markdown::internal_destinations(b),
        markdown::internal_destinations(seq![]).len() == 0,
        forall|e: EventView|
            #![trigger seq![e]]
            match e {
                EventView::Start(TagView::Link(kind, link, _, _)) => {
                    let asked = !(kind is Email) && exists|rest: Seq<char>|
                        link == #[trigger] ("@/"@ + rest);
                    markdown::internal_destinations(seq![e]) == (if asked {
                        seq![link]
                    } else {
                        seq![]
                    })
                },
                _ => markdown::internal_destinations(seq![e]).len() == 0,
            },
    decreases b.len(),
{
    assert forall|e: EventView|
        #![trigger seq![e]]
        match e {
            EventView::Start(TagView::Link(kind, link, _, _)) => {
                let asked = !(kind is Email) && exists|rest: Seq<char>|
                    link == #[trigger] ("@/"@ + rest);
                markdown::internal_destinations(seq![e]) == (if asked {
                    seq![link]
                } else {
                    seq![]
                })
            },
            _ => markdown::internal_destinations(seq![e]).len() == 0,
        } by {
        assert(seq![e].drop_last() =~= seq![]);
        assert(markdown::internal_destinations(seq![]) =~= seq![]);
        if let EventView::Start(TagView::Link(kind, link, _, _)) = e {
            destinations::lemma_kinds(link);
        }
        assert(markdown::internal_destinations(seq![e]) =~= markdown::internal_destination(e));
    }
    if b.len() == 0 {
        assert(a + b =~= a);
        assert(markdown::internal_destinations(b) =~= seq![]);
    } else {
        lemma_internal_destinations(a, b.drop_last());
        assert((a + b).drop_last() =~= a + b.drop_last());
        assert((a + b).last() == b.last());
    }
}

/// The links in the old style are all those that begin with `./`, have `.md` in them and are no email
/// addresses, in their order.
pub proof fn lemma_old_destinations(a: Seq<EventView>, b: Seq<EventView>)
    ensures
        markdown::old_destinations(a + b) == markdown::old_destinations(a)
            + markdown::old_destinations(b),
        markdown::old_destinations(seq![]).len() == 0,
        forall|e: EventView|
            #![trigger seq![e]]
            match e {
                EventView::Start(TagView::Link(kind, link, _, _)) => {
                    let old_style = !(kind is Email) && strings::has(link, ".md"@) && exists|
                        rest: Seq<char>,
                    |
                        link == #[trigger] ("./"@ + rest);
                    markdown::old_destinations(seq![e]) == (if old_style {
                        seq![link]
                    } else {
                        seq![]
                    })
                },
                _ => markdown::old_destinations(seq![e]).len() == 0,
            },
    decreases b.len(),
{
    assert forall|e: EventView|
        #![trigger seq![e]]
        match e {
            EventView::Start(TagView::Link(kind, link, _, _)) => {
                let old_style = !(kind is Email) && strings::has(link, ".md"@) && exists|
                    rest: Seq<char>,
                |
                    link == #[trigger] ("./"@ + rest);
                markdown::old_destinations(seq![e]) == (if old_style {
                    seq![link]
                } else {
                    seq![]
                })
            },
            _ => markdown::old_destinations(seq![e]).len() == 0,
        } by {
        assert(seq![e].drop_last() =~= seq![]);
        assert(markdown::old_destinations(seq![]) =~= seq![]);
        if let EventView::Start(TagView::Link(kind, link, _, _)) = e {
            destinations::lemma_kinds(link);
        }
        assert(markdown::old_destinations(seq![e]) =~= markdown::old_destination(e));
    }
    if b.len() == 0 {
        assert(a + b =~= a);
        assert(markdown::old_destinations(b) =~= seq![]);
    } else {
        lemma_old_destinations(a, b.drop_last());
        assert((a + b).drop_last() =~= a + b.drop_last());
        assert((a + b).last() == b.last());
    }
}

/// The table of internal links has the links of which the site says where they lead, in their order,
/// each with what the site says.
pub proof fn lemma_link_table(
    links: Seq<Seq<char>>,
    targets: Seq<Option<ResolvedView>>,
    link: Seq<char>,
    target: Option<ResolvedView>,
)
    requires
        targets.len() == links.len(),
    ensures
        markdown::link_table(seq![], seq![]).len() == 0,
        markdown::link_table(links.push(link), targets.push(target)) == (match target {
            Some(there) => markdown::link_table(links, targets).push((link, there)),
            None => markdown::link_table(links, targets),
        }),
{
    assert(links.push(link).drop_last() =~= links);
    lemma_same_table(links, targets, targets.push(target));
}

proof fn lemma_same_table(
    links: Seq<Seq<char>>,
    a: Seq<Option<ResolvedView>>,
    b: Seq<Option<ResolvedView>>,
)
    requires
        forall|k: int| 0 <= k < links.len() ==> a[k] == b[k],
    ensures
        markdown::link_table(links, a) == markdown::link_table(links, b),
    decreases links.len(),
{
    if links.len() > 0 {
        lemma_same_table(links.drop_last(), a, b);
    }
}

/// A page is rendered with the configuration, the address and the place of the anchor links that the
/// context has, and with the given table of internal links.
pub proof fn lemma_page(context: &RenderContext, links: &InternalLinks)
    ensures
        context::page_view(context, links).config == *context.config,
        context::page_view(context, links).permalink == context.current_page_permalink@,
        context::page_view(context, links).insert_anchor == context.insert_anchor,
        context::page_view(context, links).links == links@,
{
}

// ---------------------------------------------------------------------------------------------
// Drafts and their completion

/// A page has a draft exactly if the pass takes all its events and its headings are closed. The draft
/// has what the pass makes of the events, less the ids that the page gives, the headings with these
/// ids, and their titles without them.
pub proof fn lemma_draft_parts<'a>(page: PageView, all: Seq<EventView<'a>>)
    ensures
        match markdown::draft(page, all) {
            Some(d) => {
                &&& headings::headings_closed(all)
                &&& transform::pass(page, all) matches Some((st, out)) && {
                    let taken = headings::manual_ids(out, headings::heading_refs(all));
                    &&& d.state == st
                    &&& d.events == taken.events
                    &&& d.refs == taken.refs
                    &&& d.manual_ids == taken.ids
                    &&& d.titles == headings::heading_titles(taken.events, taken.refs)
                }
            },
            None => transform::pass(page, all) is None || !headings::headings_closed(all),
        },
{
    markdown::lemma_draft(page, all);
    transform::lemma_pass_keeps_headings(page, all);
}

/// With anchor links off, the headings get their tags and nothing more, whatever links there are.
/// Otherwise they get their tags and their links.
pub proof fn lemma_final_events<'a>(
    d: DraftView<'a>,
    ids: Seq<Seq<char>>,
    links: Seq<Seq<char>>,
)
    ensures
        ({
            let tagged = headings::tagged(d.events, d.refs, ids);
            &&& markdown::page_body(d, InsertAnchor::Never, ids, links) == cmark::html_of(tagged)
            &&& markdown::page_body(d, InsertAnchor::Left, ids, links) == cmark::html_of(
                headings::with_anchors(tagged, InsertAnchor::Left, d.refs, links),
            )
            &&& markdown::page_body(d, InsertAnchor::Right, ids, links) == cmark::html_of(
                headings::with_anchors(tagged, InsertAnchor::Right, d.refs, links),
            )
        }),
{
}

/// The summary is what stands before the first place where reading continues, in bytes. There is none
/// exactly if the page has no end of a summary, or no such place.
pub proof fn lemma_summary_measured(has_summary: bool, body: Seq<char>)
    ensures
        match markdown::summary_len(has_summary, body) {
            Some(n) => has_summary && exists|a: Seq<char>, b: Seq<char>|
                {
                    &&& #[trigger] (a + "<span id=\"continue-reading\"></span>"@ + b) == body
                    &&& n == vstd::utf8::encode_utf8(a).len()
                    &&& forall|j: int|
                        0 <= j < a.len() ==> !#[trigger] events::stands_at(
                            body,
                            "<span id=\"continue-reading\"></span>"@,
                            j,
                        )
                },
            None => !has_summary || !strings::has(body, "<span id=\"continue-reading\"></span>"@),
        },
{
    let mark = "<span id=\"continue-reading\"></span>"@;
    text::lemma_find_contains(body, mark);
    text::lemma_find_from(body, mark, 0);
    strings::lemma_contains(body, mark);
    if has_summary {
        if let Some(i) = text::find(body, mark) {
            let a = body.take(i);
            let b = body.skip(i + mark.len());
            assert(body =~= a + body.subrange(i, i + mark.len()) + b);
            assert(a + mark + b == body);
            assert forall|j: int| 0 <= j < a.len() implies !#[trigger] events::stands_at(
                body,
                mark,
                j,
            ) by {
                assert(!text::occurs_at(body, mark, j));
            }
        }
    }
}

// ---------------------------------------------------------------------------------------------
// Outcomes

/// What rendering a page comes to, case by case. An event without a rendering, and a heading that is
/// not closed, refuse the page before anything else; then an anchor link that fails; then a heading
/// for which no anchor is left; then the last bad link. Any other page is rendered: its body is that
/// of its draft with the ids and the anchor links of its headings, its table of contents is the one
/// that the site makes, and its links are those that the pass noted.
pub proof fn lemma_cases(content: Seq<char>, context: &RenderContext, answers: Answers)
    ensures
        ({
            let all = cmark::page_events(content);
            let page = PageView {
                config: *context.config,
                permalink: context.current_page_permalink@,
                insert_anchor: context.insert_anchor,
                links: markdown::link_table(
                    markdown::internal_destinations(all),
                    answers.targets,
                ),
            };
            let outcome = markdown::outcome(content, context, answers);
            match markdown::draft(page, all) {
                None => outcome == Err::<RenderedView, ErrorView>(ErrorView::Unrenderable),
                Some(d) => {
                    let ids = headings::heading_ids(d.manual_ids, d.refs, answers.slugs);
                    if answers.anchor_failure is Some {
                        outcome == Err::<RenderedView, ErrorView>(
                            ErrorView::AnchorTemplate(answers.anchor_failure->0),
                        )
                    } else if ids.len() < d.refs.len() {
                        outcome == Err::<RenderedView, ErrorView>(ErrorView::Unrenderable)
                    } else if d.state.error is Some {
                        outcome == Err::<RenderedView, ErrorView>(d.state.error->0)
                    } else {
                        &&& outcome matches Ok(r)
                        &&& r.body == markdown::page_body(
                            d,
                            context.insert_anchor,
                            ids,
                            answers.anchor_links,
                        )
                        &&& r.summary_len == markdown::summary_len(d.state.has_summary, r.body)
                        &&& r.toc == answers.toc
                        &&& r.internal_links_with_anchors == d.state.internal_links_with_anchors
                        &&& r.external_links == d.state.external_links
                    }
                },
            }
        }),
{
    assert(markdown::answered_draft(content, context, answers) == markdown::draft(
        markdown::answered_page(content, context, answers),
        cmark::page_events(content),
    ));
}

/// What is known of an outcome is what it holds: of a rendered page each of its parts, text by text,
/// and of an error its kind and its text.
pub proof fn lemma_outcome_holds(r: Result<Rendered, Error>)
    ensures
        match markdown::outcome_view(r) {
            Ok(view) => {
                &&& r matches Ok(page)
                &&& view.body == page.body@
                &&& match page.summary_len {
                    Some(n) => view.summary_len == Some(n as int),
                    None => view.summary_len is None,
                }
                &&& view.toc == page.toc@
                &&& view.internal_links_with_anchors.len() == page.internal_links_with_anchors@.len()
                &&& forall|k: int|
                    0 <= k < page.internal_links_with_anchors@.len()
                        ==> #[trigger] view.internal_links_with_anchors[k] == (
                        page.internal_links_with_anchors@[k].0@,
                        page.internal_links_with_anchors@[k].1@,
                    )
                &&& view.external_links.len() == page.external_links@.len()
                &&& forall|k: int|
                    0 <= k < page.external_links@.len() ==> #[trigger] view.external_links[k]
                        == page.external_links@[k]@
            },
            Err(ErrorView::MissingUrl) => r matches Err(Error::MissingUrl),
            Err(ErrorView::LinkNotFound(link)) => r matches Err(Error::LinkNotFound(l)) && l@ == link,
            Err(ErrorView::AnchorTemplate(why)) => r matches Err(Error::AnchorTemplate(w)) && w@
                == why,
            Err(ErrorView::Unrenderable) => r matches Err(Error::Unrenderable),
        },
{
}

/// What an error says.
pub proof fn lemma_messages(text: Seq<char>)
    ensures
        error::error_message(ErrorView::MissingUrl) == "There is a link that is missing a URL"@,
        error::error_message(ErrorView::LinkNotFound(text)) == "Relative link "@ + text
            + " not found."@,
        error::error_message(ErrorView::AnchorTemplate(text))
            == "Failed to render anchor link template"@,
        error::error_message(ErrorView::Unrenderable) == "The page has no rendering"@,
{
}

// ---------------------------------------------------------------------------------------------
// What the site is asked

/// The site is asked where each internal link leads, and what it says is what counts.
pub proof fn lemma_site_resolves<R: Fn(&str) -> Option<ResolvedLink>>(
    resolve: R,
    links: Seq<Seq<char>>,
    targets: Seq<Option<ResolvedView>>,
    k: int,
) -> (asked: (&'static str, Option<ResolvedLink>))
    requires
        markdown::targets_answered(resolve, links, targets),
        0 <= k < links.len(),
    ensures
        targets.len() == links.len(),
        asked.0@ == links[k],
        call_ensures(resolve, (asked.0,), asked.1),
        match asked.1 {
            Some(there) => targets[k] matches Some(view) && view.permalink == there.permalink@ && (
            match there.anchor {
                Some((path, anchor)) => view.anchor == Some((path@, anchor@)),
                None => view.anchor is None,
            }),
            None => targets[k] is None,
        },
{
    assert(markdown::resolves_to(resolve, links[k], targets[k]));
    choose|l: &'static str, t: Option<ResolvedLink>|
        l@ == links[k] && markdown::target_view(t) == targets[k] && #[trigger] call_ensures(
            resolve,
            (l,),
            t,
        )
}

/// The site is asked for the slug of the title of each heading without an id of its own.
pub proof fn lemma_site_slugifies<S: Fn(&str) -> String>(
    slugify: S,
    refs: Seq<headings::RefView>,
    titles: Seq<Seq<char>>,
    slugs: Seq<Seq<char>>,
    k: int,
) -> (asked: (&'static str, String))
    requires
        markdown::slugs_answered(slugify, refs, titles, slugs),
        0 <= k < refs.len(),
        refs[k].id is None,
    ensures
        slugs.len() == refs.len(),
        asked.0@ == titles[k],
        asked.1@ == slugs[k],
        call_ensures(slugify, (asked.0,), asked.1),
{
    assert(markdown::slugifies_to(slugify, titles[k], slugs[k]));
    choose|t: &'static str, s: String|
        t@ == titles[k] && s@ == slugs[k] && #[trigger] call_ensures(slugify, (t,), s)
}

/// With anchor links off, the site is asked for none. Otherwise it is asked for that of one heading
/// after another, with the id and the level of the heading, up to the first that fails.
pub proof fn lemma_site_renders_anchors<T: Fn(tera::Context) -> Result<String, String>>(
    render_anchor: T,
    insert: InsertAnchor,
    refs: Seq<headings::RefView>,
    ids: Seq<Seq<char>>,
    links: Seq<Seq<char>>,
    failure: Option<Seq<char>>,
    k: int,
) -> (asked: (tera::Context, Result<String, String>))
    requires
        markdown::anchors_answered(render_anchor, insert, refs, ids, links, failure),
    ensures
        insert is Never ==> links.len() == 0 && failure is None,
        !(insert is Never) ==> {
            &&& failure is None ==> links.len() == ids.len()
            &&& failure is Some ==> links.len() < ids.len()
            &&& (0 <= k < links.len() || (k == links.len() && failure is Some)) ==> {
                let values = headings::context_values(asked.0);
                &&& call_ensures(render_anchor, (asked.0,), asked.1)
                &&& values.dom() == set!["id"@, "level"@]
                &&& values["id"@] == TemplateValue::Text(ids[k])
                &&& values["level"@] == TemplateValue::Number(refs[k].level as nat)
                &&& k < links.len() ==> (asked.1 matches Ok(html) && html@ == links[k])
                &&& k == links.len() ==> (asked.1 matches Err(reason) && failure == Some(reason@))
            }
        },
{
    let link: Result<Seq<char>, Seq<char>> = if k < links.len() {
        Ok(links[k])
    } else {
        Err(failure->0)
    };
    if !(insert is Never) && (0 <= k < links.len() || (k == links.len() && failure is Some)) {
        assert(markdown::renders_to(render_anchor, ids[k], refs[k].level, link));
        anchors::lemma_anchor_values(ids[k], refs[k].level);
    }
    choose|c: tera::Context, l: Result<String, String>|
        headings::context_values(c) == headings::anchor_values(ids[k], refs[k].level) && link == (
        match l {
            Ok(html) => Ok(html@),
            Err(reason) => Err(reason@),
        }) && #[trigger] call_ensures(render_anchor, (c,), l)
}

/// The site makes the table of contents of the list of all headings.
pub proof fn lemma_site_nests<N: Fn(Vec<Heading>) -> Vec<Heading>>(
    nest: N,
    d: DraftView,
    ids: Seq<Seq<char>>,
    page: Seq<char>,
    toc: Seq<Heading>,
) -> (asked: (Vec<Heading>, Vec<Heading>))
    requires
        markdown::nests_to(nest, d, ids, page, toc),
    ensures
        call_ensures(nest, (asked.0,), asked.1),
        asked.1@ == toc,
        asked.0@.len() == ids.len(),
        forall|k: int|
            0 <= k < ids.len() ==> {
                let h = #[trigger] asked.0@[k];
                &&& h.level == d.refs[k].level
                &&& h.id@ == ids[k]
                &&& h.permalink@ == page + "#"@ + ids[k]
                &&& h.title@ == d.titles[k]
                &&& h.children@.len() == 0
            },
{
    let (h, t) = choose|h: Vec<Heading>, t: Vec<Heading>|
        headings::are_headings(h@, d.refs, ids, page, d.titles) && t@ == toc
            && #[trigger] call_ensures(nest, (h,), t);
    anchors::lemma_listed(h@, d.refs, ids, page, d.titles);
    (h, t)
}

// ---------------------------------------------------------------------------------------------
// What a page shows

/// What stands before all events stands in no image. An image that starts leads into it, and so does
/// any other start within an image; an end leads out by one. Nothing else matters.
pub proof fn lemma_image_depth(all: Seq<EventView>, event: EventView)
    ensures
        cmark::image_depth(seq![]) == 0,
        ({
            let before = cmark::image_depth(all);
            let behind = cmark::image_depth(all.push(event));
            match event {
                EventView::Start(TagView::Image(_, _, _, _)) => behind == before + 1,
                EventView::Start(TagView::Other(t)) => behind == (if before > 0 || cmark::tag_parts(
                    t,
                ) is Image {
                    before + 1
                } else {
                    0
                }),
                EventView::Start(TagView::Heading(_, t)) => behind == (if before > 0
                    || cmark::tag_parts(t) is Image {
                    before + 1
                } else {
                    0
                }),
                EventView::Start(_) => behind == (if before > 0 {
                    before + 1
                } else {
                    0
                }),
                EventView::End(_) => behind == (if before > 0 {
                    before - 1
                } else {
                    0
                }),
                _ => behind == before,
            }
        }),
{
    assert(all.push(event).drop_last() =~= all);
}

/// All markup of the page that the pass has no reason to touch, and that does not stand in an image,
/// stands in the HTML as it is.
pub open spec fn own_markup_shown(html: Seq<char>, all: Seq<EventView>) -> bool {
    forall|i: int|
        0 <= i < all.len() && #[trigger] events::is_own_markup(all, i) && cmark::image_depth(
            all.take(i),
        ) == 0 ==> match all[i] {
            EventView::Html(markup) => strings::has(html, markup),
            EventView::InlineHtml(markup) => strings::has(html, markup),
            _ => true,
        }
}

/// The draft has the markup that the pass makes, in its place.
pub proof fn lemma_draft_markup<'a>(page: PageView, all: Seq<EventView<'a>>, i: int)
    requires
        markdown::draft(page, all) is Some,
        0 <= i < all.len(),
        !((transform::pass(page, all)->0).1[i] is Text),
    ensures
        (markdown::draft(page, all)->0).events[i] == (transform::pass(page, all)->0).1[i],
{
    let (st, out) = transform::pass(page, all)->0;
    let refs = headings::heading_refs(out);
    transform::lemma_pass_keeps(page, all);
    anchors::lemma_headings_found(out);
    assert forall|k: int| 0 <= k < refs.len() implies 0 <= (#[trigger] refs[k]).start_idx
        < refs[k].end_idx < out.len() by {}
    headings::lemma_manual_ids(out, refs);
    assert(headings::manual_ids(out, refs).events[i] == out[i]);
}

/// A page that shows the markup of its draft shows its own.
pub proof fn lemma_own_markup_shown<'a>(page: PageView, all: Seq<EventView<'a>>, html: Seq<char>)
    requires
        cmark::blocks_outside_images(all),
        cmark::all_open(all),
        markdown::draft(page, all) matches Some(d) && d.state.error is None && cmark::markup_shown(
            html,
            d.events,
        ),
    ensures
        own_markup_shown(html, all),
{
    let d = markdown::draft(page, all)->0;
    assert forall|i: int|
        0 <= i < all.len() && #[trigger] events::is_own_markup(all, i) && cmark::image_depth(
            all.take(i),
        ) == 0 implies match all[i] {
        EventView::Html(markup) => strings::has(html, markup),
        EventView::InlineHtml(markup) => strings::has(html, markup),
        _ => true,
    } by {
        events::lemma_own_markup_kept(page, all, i);
        lemma_draft_markup(page, all, i);
        assert(d.events[i] == all[i]);
        assert(d.events.len() == all.len() && cmark::image_depth(d.events.take(i)) == 0) by {
            markdown::lemma_draft(page, all);
            transform::lemma_pass_error(page, all);
        }
        assert(cmark::is_open_markup(d.events, i));
        strings::lemma_contains(html, cmark::markup_of(d.events[i])->0);
    }
}

/// A rendered page shows the opening tag of each of its headings: with the level of the event that
/// starts the heading, and with its id. The result is the level as it is written.
pub proof fn lemma_headings_shown(
    content: Seq<char>,
    context: &RenderContext,
    answers: Answers,
    body: Seq<char>,
    k: int,
) -> (digits: Seq<char>)
    requires
        markdown::page_shows(body, content, context, answers),
        0 <= k < headings::heading_ids(
            (markdown::answered_draft(content, context, answers)->0).manual_ids,
            (markdown::answered_draft(content, context, answers)->0).refs,
            answers.slugs,
        ).len(),
    ensures
        ({
            let all = cmark::page_events(content);
            let d = markdown::answered_draft(content, context, answers)->0;
            let ids = headings::heading_ids(d.manual_ids, d.refs, answers.slugs);
            let i = headings::heading_refs(all)[k].start_idx;
            &&& 0 <= i < all.len()
            &&& all[i] matches EventView::Start(TagView::Heading(level, _))
                && code::are_digits(digits) && code_block::number(digits) == level
                && strings::has(body, "<h"@ + digits + " id=\""@ + ids[k] + "\">"@)
        }),
{
    let all = cmark::page_events(content);
    let page = markdown::answered_page(content, context, answers);
    let d = markdown::draft(page, all)->0;
    let ids = headings::heading_ids(d.manual_ids, d.refs, answers.slugs);
    let refs = headings::heading_refs(all);
    let (st, out) = transform::pass(page, all)->0;
    markdown::lemma_draft(page, all);
    lemma_draft_parts(page, all);
    transform::lemma_pass_keeps(page, all);
    transform::lemma_pass_keeps_headings(page, all);
    headings::lemma_ids_len(d.manual_ids, d.refs, answers.slugs);
    anchors::lemma_headings_found(all);
    assert forall|j: int| 0 <= j < refs.len() implies 0 <= (#[trigger] refs[j]).start_idx
        < refs[j].end_idx < out.len() by {}
    headings::lemma_manual_ids(out, refs);
    assert(d.refs[k].level == refs[k].level);
    assert(text::contains(body, headings::heading_html(d.refs[k].level, ids[k])));
    strings::lemma_contains(body, headings::heading_html(refs[k].level, ids[k]));
    anchors::lemma_opening_tag(refs[k].level, ids[k])
}

} // verus!
