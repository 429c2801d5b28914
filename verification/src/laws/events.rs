//! Laws of the pass over the events of a page.

use crate::cmark::{EndView, EventView, TagView};
use crate::context::PageView;
use crate::error::ErrorView;
use crate::laws::{destinations, strings};
use crate::syntaxes::SpanStyle;
use crate::transform;
use crate::transform::PassView;
use crate::{code_block, links, syntaxes, text};
use vstd::prelude::*;

verus! {

// ---------------------------------------------------------------------------------------------
// Markup

/// Markup without `<!-- more -->` and without `pre data-shortcode`, and without a `</pre>` that closes
/// an open shortcode block, comes out as it is, and the state stays as it is.
pub proof fn lemma_markup_kept(st: PassView, markup: Seq<char>)
    requires
        !strings::has(markup, "<!-- more -->"@),
        !strings::has(markup, "pre data-shortcode"@),
        st.in_html_block ==> !strings::has(markup, "</pre>"@),
    ensures
        transform::html_step(st, markup) == (st, markup),
{
    strings::lemma_contains(markup, "<!-- more -->"@);
    strings::lemma_contains(markup, "pre data-shortcode"@);
    strings::lemma_contains(markup, "</pre>"@);
}

/// Markup with `<!-- more -->` becomes the place where reading continues, and the page has a summary.
/// Nothing else of the state changes.
pub proof fn lemma_summary_mark(st: PassView, markup: Seq<char>)
    requires
        strings::has(markup, "<!-- more -->"@),
    ensures
        transform::html_step(st, markup) == (
            PassView { has_summary: true, ..st },
            "<span id=\"continue-reading\"></span>"@,
        ),
        transform::CONTINUE_READING@ == "<span id=\"continue-reading\"></span>"@,
{
    strings::lemma_contains(markup, "<!-- more -->"@);
}

/// Within an open shortcode block, the first `</pre>` goes away, and the block is closed. Nothing else
/// changes.
pub proof fn lemma_block_closes(st: PassView, markup: Seq<char>)
    requires
        st.in_html_block,
        !strings::has(markup, "<!-- more -->"@),
        strings::has(markup, "</pre>"@),
    ensures
        ({
            let (after, html) = transform::html_step(st, markup);
            &&& after == PassView { in_html_block: false, ..st }
            &&& loses_first(markup, "</pre>"@, html)
        }),
{
    strings::lemma_contains(markup, "<!-- more -->"@);
    strings::lemma_contains(markup, "</pre>"@);
    lemma_loses_first(markup, "</pre>"@);
}

/// The second text is the first one without the first occurrence of the pattern; if there is none, the
/// two are the same.
pub open spec fn loses_first(s: Seq<char>, pat: Seq<char>, t: Seq<char>) -> bool {
    if strings::has(s, pat) {
        exists|a: Seq<char>, b: Seq<char>|
            {
                &&& s == #[trigger] (a + pat + b)
                &&& t == a + b
                &&& forall|j: int| 0 <= j < a.len() ==> !#[trigger] stands_at(s, pat, j)
            }
    } else {
        t == s
    }
}

/// The pattern stands in the text at this place.
pub open spec fn stands_at(s: Seq<char>, pat: Seq<char>, i: int) -> bool {
    i + pat.len() <= s.len() && s.subrange(i, i + pat.len()) == pat
}

proof fn lemma_loses_first(s: Seq<char>, pat: Seq<char>)
    ensures
        loses_first(s, pat, text::replace_first(s, pat, seq![])),
{
    strings::lemma_contains(s, pat);
    let none = Seq::<char>::empty();
    strings::lemma_replace_first(s, pat, none);
    if strings::has(s, pat) {
        let (a, b) = choose|a: Seq<char>, b: Seq<char>|
            {
                &&& s == #[trigger] (a + pat + b)
                &&& text::replace_first(s, pat, none) == a + none + b
                &&& forall|j: int| 0 <= j < a.len() ==> !text::occurs_at(s, pat, j)
            };
        assert(a + none + b =~= a + b);
        assert forall|j: int| 0 <= j < a.len() implies !#[trigger] stands_at(s, pat, j) by {
            assert(!text::occurs_at(s, pat, j));
        }
        assert(s == a + pat + b);
    }
}

/// Markup that opens a shortcode block loses the first `<pre data-shortcode>`. If a `</pre>` is left
/// in it, that goes away too, and the block is closed again; otherwise the block is open. Nothing else
/// changes.
pub proof fn lemma_block_opens(st: PassView, markup: Seq<char>)
    requires
        !strings::has(markup, "<!-- more -->"@),
        strings::has(markup, "pre data-shortcode"@),
        st.in_html_block ==> !strings::has(markup, "</pre>"@),
    ensures
        ({
            let (after, html) = transform::html_step(st, markup);
            exists|opened: Seq<char>|
                {
                    &&& #[trigger] loses_first(markup, "<pre data-shortcode>"@, opened)
                    &&& loses_first(opened, "</pre>"@, html)
                    &&& after == PassView {
                        in_html_block: !strings::has(opened, "</pre>"@),
                        ..st
                    }
                }
        }),
{
    strings::lemma_contains(markup, "<!-- more -->"@);
    strings::lemma_contains(markup, "pre data-shortcode"@);
    strings::lemma_contains(markup, "</pre>"@);
    let opened = text::replace_first(markup, "<pre data-shortcode>"@, seq![]);
    lemma_loses_first(markup, "<pre data-shortcode>"@);
    strings::lemma_contains(opened, "</pre>"@);
    lemma_loses_first(opened, "</pre>"@);
}

// ---------------------------------------------------------------------------------------------
// One event more

/// A page without events has nothing: no code block, no summary, no error, no links.
pub proof fn lemma_no_events(page: PageView)
    ensures
        transform::pass(page, seq![]) matches Some((st, out)) && out.len() == 0 && st.highlighter
            is None && st.info is None && !st.has_summary && !st.in_html_block && st.error is None
            && st.internal_links_with_anchors.len() == 0 && st.external_links.len() == 0,
{
}

/// An event that has no rendering leaves the page without one.
pub proof fn lemma_lost<'a>(page: PageView, events: Seq<EventView<'a>>, event: EventView<'a>)
    requires
        transform::pass(page, events) is None,
    ensures
        transform::pass(page, events.push(event)) is None,
{
    assert(events.push(event).drop_last() =~= events);
}

/// The event is none of those that the pass looks at: no text, no markup, and no part of a code block,
/// a link or an image.
pub open spec fn is_other(event: EventView) -> bool {
    match event {
        EventView::Start(TagView::Heading(_, _)) => true,
        EventView::Start(TagView::Other(_)) => true,
        EventView::End(EndView::Heading(_)) => true,
        EventView::End(EndView::Other(_)) => true,
        EventView::Code(_) => true,
        EventView::Other(_) => true,
        _ => false,
    }
}

/// After some events, the pass takes one more, which becomes the last one, and comes to another state.
pub open spec fn takes<'a>(
    page: PageView,
    events: Seq<EventView<'a>>,
    event: EventView<'a>,
    becomes: EventView<'a>,
    after: PassView,
) -> bool {
    transform::pass(page, events) matches Some((_, out)) && transform::pass(
        page,
        events.push(event),
    ) == Some((after, out.push(becomes)))
}

/// The pass keeps an event that it does not look at, and a text outside fenced code, and so does the
/// state.
pub proof fn lemma_kept<'a>(page: PageView, events: Seq<EventView<'a>>, event: EventView<'a>)
    requires
        transform::pass(page, events) matches Some((st, _)) && (is_other(event) || (event is Text
            && st.highlighter is None)),
    ensures
        takes(page, events, event, event, (transform::pass(page, events)->0).0),
{
    assert(events.push(event).drop_last() =~= events);
}

/// Without highlighting a code block is shown in a `pre` and a `code` element, and the state stays as
/// it is.
pub proof fn lemma_plain_code<'a>(page: PageView, events: Seq<EventView<'a>>, line: Seq<char>)
    requires
        !page.config.highlight_code,
        transform::pass(page, events) is Some,
    ensures
        ({
            let st = (transform::pass(page, events)->0).0;
            let opens = EventView::<'a>::Html("<pre><code>"@);
            let closes = EventView::<'a>::Html("</code></pre>\n"@);
            &&& takes(page, events, EventView::<'a>::Start(TagView::FencedCode(line)), opens, st)
            &&& takes(page, events, EventView::<'a>::Start(TagView::IndentedCode), opens, st)
            &&& takes(page, events, EventView::<'a>::End(EndView::CodeBlock), closes, st)
        }),
{
    let a = EventView::<'a>::Start(TagView::FencedCode(line));
    let b = EventView::<'a>::Start(TagView::IndentedCode);
    let c = EventView::<'a>::End(EndView::CodeBlock);
    assert(events.push(a).drop_last() =~= events);
    assert(events.push(b).drop_last() =~= events);
    assert(events.push(c).drop_last() =~= events);
}

/// With highlighting, the start of a fenced code block leaves nothing in the output. What its info
/// string asks for and the highlighter of its language are noted; without them the page has no
/// rendering.
pub proof fn lemma_fence<'a>(page: PageView, events: Seq<EventView<'a>>, line: Seq<char>)
    requires
        page.config.highlight_code,
        transform::pass(page, events) is Some,
    ensures
        ({
            let st = (transform::pass(page, events)->0).0;
            let event = EventView::<'a>::Start(TagView::FencedCode(line));
            let info = code_block::line_info(line);
            let highlighter = syntaxes::highlighter(info.language, page.config);
            if code_block::has_info(line) && highlighter is Some {
                takes(
                    page,
                    events,
                    event,
                    EventView::<'a>::Html(Seq::<char>::empty()),
                    PassView { highlighter, info: Some(info), ..st },
                )
            } else {
                transform::pass(page, events.push(event)) is None
            }
        }),
{
    let event = EventView::<'a>::Start(TagView::FencedCode(line));
    assert(events.push(event).drop_last() =~= events);
}

/// Within a fenced code block, the code becomes the table that shows it: highlighted line by line with
/// the syntax of the block, out of the set that the syntax is from. A second piece of code leaves the
/// page without a rendering.
pub proof fn lemma_code<'a>(page: PageView, events: Seq<EventView<'a>>, code: Seq<char>)
    requires
        transform::pass(page, events) matches Some((st, _)) && st.highlighter is Some,
    ensures
        ({
            let st = (transform::pass(page, events)->0).0;
            let (syntax, in_extra) = st.highlighter->0;
            let set = if in_extra {
                page.config.extra_syntax_set
            } else {
                Some(page.config.syntax_set)
            };
            let event = EventView::<'a>::Text(code);
            if st.info is Some && set is Some {
                takes(
                    page,
                    events,
                    event,
                    EventView::<'a>::Html(
                        code_block::code_table(
                            st.info->0,
                            code,
                            syntaxes::classed_html(
                                syntax,
                                set->0,
                                SpanStyle::Spaced,
                                syntaxes::code_lines(code),
                            ),
                        ),
                    ),
                    PassView { info: None, ..st },
                )
            } else {
                transform::pass(page, events.push(event)) is None
            }
        }),
{
    let event = EventView::<'a>::Text(code);
    assert(events.push(event).drop_last() =~= events);
}

/// With highlighting, the end of a code block closes its table, and no highlighter is left. The start
/// of an indented one leaves nothing in the output.
pub proof fn lemma_code_ends<'a>(page: PageView, events: Seq<EventView<'a>>)
    requires
        page.config.highlight_code,
        transform::pass(page, events) is Some,
    ensures
        ({
            let st = (transform::pass(page, events)->0).0;
            &&& takes(
                page,
                events,
                EventView::<'a>::End(EndView::CodeBlock),
                EventView::<'a>::Html("</td></pre></tr></tbody></table></div>"@),
                PassView { highlighter: None, ..st },
            )
            &&& exists|info: code_block::InfoView|
                {
                    &&& info.language.len() == 0
                    &&& !info.line_numbers
                    &&& info.title is None
                    &&& info.markers.len() == 0
                    &&& #[trigger] takes(
                        page,
                        events,
                        EventView::<'a>::Start(TagView::IndentedCode),
                        EventView::<'a>::Html(Seq::<char>::empty()),
                        PassView { info: Some(info), ..st },
                    )
                }
        }),
{
    let a = EventView::<'a>::Start(TagView::IndentedCode);
    let b = EventView::<'a>::End(EndView::CodeBlock);
    assert(events.push(a).drop_last() =~= events);
    assert(events.push(b).drop_last() =~= events);
    let st = (transform::pass(page, events)->0).0;
    let info = code_block::empty_info();
    assert(takes(
        page,
        events,
        a,
        EventView::<'a>::Html(Seq::<char>::empty()),
        PassView { info: Some(info), ..st },
    ));
}

/// An image keeps everything but its source. A source without a slash and without a scheme names a
/// file beside the page, and gets the address of the page before it; any other stays as it is.
pub proof fn lemma_image<'a>(
    page: PageView,
    events: Seq<EventView<'a>>,
    kind: pulldown_cmark::LinkType,
    src: Seq<char>,
    title: Seq<char>,
    label: Seq<char>,
)
    requires
        transform::pass(page, events) is Some,
    ensures
        takes(
            page,
            events,
            EventView::<'a>::Start(TagView::Image(kind, src, title, label)),
            EventView::<'a>::Start(
                TagView::Image(
                    kind,
                    if src.contains('/') || destinations::has_scheme(src) {
                        src
                    } else {
                        page.permalink + src
                    },
                    title,
                    label,
                ),
            ),
            (transform::pass(page, events)->0).0,
        ),
{
    let event = EventView::<'a>::Start(TagView::Image(kind, src, title, label));
    destinations::lemma_colocated(src);
    assert(events.push(event).drop_last() =~= events);
}

/// A link keeps everything but its destination. One without a destination leads to `#` and is an
/// error. One that leads nowhere goes out of the output and is an error. The last error counts. What
/// a link leads to outside of the site, and the anchor that it needs, are noted behind what is noted
/// already.
pub proof fn lemma_link<'a>(
    page: PageView,
    events: Seq<EventView<'a>>,
    kind: crate::cmark::LinkKind,
    link: Seq<char>,
    title: Seq<char>,
    label: Seq<char>,
)
    requires
        transform::pass(page, events) is Some,
    ensures
        ({
            let st = (transform::pass(page, events)->0).0;
            let event = EventView::<'a>::Start(TagView::Link(kind, link, title, label));
            let noted = PassView {
                internal_links_with_anchors: st.internal_links_with_anchors + links::needed_anchor(
                    kind,
                    link,
                    page.links,
                ),
                external_links: st.external_links + links::external_target(kind, link),
                ..st
            };
            if link.len() == 0 {
                takes(
                    page,
                    events,
                    event,
                    EventView::<'a>::Start(TagView::Link(kind, "#"@, title, label)),
                    PassView { error: Some(ErrorView::MissingUrl), ..st },
                )
            } else {
                match links::fixed_link(kind, link, page.permalink, page.links) {
                    Ok(fixed) => takes(
                        page,
                        events,
                        event,
                        EventView::<'a>::Start(TagView::Link(kind, fixed, title, label)),
                        noted,
                    ),
                    Err(e) => takes(
                        page,
                        events,
                        event,
                        EventView::<'a>::Html(Seq::<char>::empty()),
                        PassView { error: Some(e), ..noted },
                    ),
                }
            }
        }),
{
    let event = EventView::<'a>::Start(TagView::Link(kind, link, title, label));
    assert(events.push(event).drop_last() =~= events);
}

/// Markup within a line and markup of its own are treated alike, and stay what they are.
pub proof fn lemma_markup<'a>(page: PageView, events: Seq<EventView<'a>>, markup: Seq<char>)
    requires
        transform::pass(page, events) is Some,
    ensures
        ({
            let st = (transform::pass(page, events)->0).0;
            let (after, html) = transform::html_step(st, markup);
            &&& takes(
                page,
                events,
                EventView::<'a>::Html(markup),
                EventView::<'a>::Html(html),
                after,
            )
            &&& takes(
                page,
                events,
                EventView::<'a>::InlineHtml(markup),
                EventView::<'a>::InlineHtml(html),
                after,
            )
        }),
{
    let a = EventView::<'a>::Html(markup);
    let b = EventView::<'a>::InlineHtml(markup);
    assert(events.push(a).drop_last() =~= events);
    assert(events.push(b).drop_last() =~= events);
}

// ---------------------------------------------------------------------------------------------
// All events

/// The event is this markup.
pub open spec fn is_markup(event: EventView, markup: Seq<char>) -> bool {
    event == EventView::Html(markup) || event == EventView::InlineHtml(markup)
}

/// The event is markup with this pattern in it.
pub open spec fn markup_has(event: EventView, pat: Seq<char>) -> bool {
    match event {
        EventView::Html(markup) => strings::has(markup, pat),
        EventView::InlineHtml(markup) => strings::has(markup, pat),
        _ => false,
    }
}

/// The event at `i` is markup that the pass has no reason to touch: it has neither `<!-- more -->` nor
/// `pre data-shortcode` in it, and if it has `</pre>` in it, no markup before it has
/// `pre data-shortcode`.
pub open spec fn is_own_markup(events: Seq<EventView>, i: int) -> bool {
    &&& events[i] is Html || events[i] is InlineHtml
    &&& !markup_has(events[i], "<!-- more -->"@)
    &&& !markup_has(events[i], "pre data-shortcode"@)
    &&& !markup_has(events[i], "</pre>"@) || forall|j: int|
        0 <= j < i ==> !markup_has(#[trigger] events[j], "pre data-shortcode"@)
}

/// Without markup that opens one, no shortcode block is open.
pub proof fn lemma_no_block<'a>(page: PageView, events: Seq<EventView<'a>>)
    requires
        forall|j: int|
            0 <= j < events.len() ==> !markup_has(#[trigger] events[j], "pre data-shortcode"@),
    ensures
        transform::pass(page, events) matches Some((st, _)) ==> !st.in_html_block,
    decreases events.len(),
{
    if events.len() > 0 {
        let rest = events.drop_last();
        assert forall|j: int| 0 <= j < rest.len() implies !markup_has(
            #[trigger] rest[j],
            "pre data-shortcode"@,
        ) by {
            assert(rest[j] == events[j]);
        }
        lemma_no_block(page, rest);
        let last = events.last();
        assert(last == events[events.len() - 1]);
        match last {
            EventView::Html(markup) => {
                strings::lemma_contains(markup, "pre data-shortcode"@);
            },
            EventView::InlineHtml(markup) => {
                strings::lemma_contains(markup, "pre data-shortcode"@);
            },
            _ => {},
        }
    }
}

/// Such markup comes through the pass as it is.
pub proof fn lemma_own_markup_kept<'a>(page: PageView, events: Seq<EventView<'a>>, i: int)
    requires
        0 <= i < events.len(),
        is_own_markup(events, i),
    ensures
        transform::pass(page, events) matches Some((_, out)) ==> out.len() == events.len() && out[i]
            == events[i],
    decreases events.len(),
{
    transform::lemma_pass_keeps(page, events);
    if let Some((st, out)) = transform::pass(page, events) {
        let rest = events.drop_last();
        let (st0, out0) = transform::pass(page, rest)->0;
        transform::lemma_pass_keeps(page, rest);
        if i < rest.len() {
            assert(rest[i] == events[i]);
            assert(is_own_markup(rest, i)) by {
                if markup_has(events[i], "</pre>"@) {
                    assert forall|j: int| 0 <= j < i implies !markup_has(
                        #[trigger] rest[j],
                        "pre data-shortcode"@,
                    ) by {
                        assert(rest[j] == events[j]);
                    }
                }
            }
            lemma_own_markup_kept(page, rest, i);
            assert(out[i] == out0[i]);
        } else {
            if markup_has(events[i], "</pre>"@) {
                assert forall|j: int| 0 <= j < rest.len() implies !markup_has(
                    #[trigger] rest[j],
                    "pre data-shortcode"@,
                ) by {
                    assert(rest[j] == events[j]);
                }
                lemma_no_block(page, rest);
            }
            assert(events.last() == events[i]);
            match events[i] {
                EventView::Html(markup) => {
                    lemma_markup_kept(st0, markup);
                },
                EventView::InlineHtml(markup) => {
                    lemma_markup_kept(st0, markup);
                },
                _ => {},
            }
        }
    }
}

/// Where the summary ends, the place where reading continues stands in the output. The page has a
/// summary exactly if there is such a place.
pub proof fn lemma_summary<'a>(page: PageView, events: Seq<EventView<'a>>)
    ensures
        transform::pass(page, events) matches Some((st, out)) ==> {
            &&& st.has_summary <==> exists|i: int|
                0 <= i < events.len() && markup_has(#[trigger] events[i], "<!-- more -->"@)
            &&& forall|i: int|
                0 <= i < events.len() && markup_has(#[trigger] events[i], "<!-- more -->"@)
                    ==> is_markup(out[i], "<span id=\"continue-reading\"></span>"@)
        },
{
    transform::lemma_pass_summary(page, events);
    if let Some((st, out)) = transform::pass(page, events) {
        assert forall|i: int| 0 <= i < events.len() implies markup_has(
            #[trigger] events[i],
            "<!-- more -->"@,
        ) == transform::ends_summary(events[i]) by {
            match events[i] {
                EventView::Html(markup) => {
                    strings::lemma_contains(markup, "<!-- more -->"@);
                },
                EventView::InlineHtml(markup) => {
                    strings::lemma_contains(markup, "<!-- more -->"@);
                },
                _ => {},
            }
        }
        if st.has_summary {
            let i = choose|i: int|
                0 <= i < events.len() && transform::ends_summary(#[trigger] events[i]);
            assert(markup_has(events[i], "<!-- more -->"@));
        }
        assert forall|i: int|
            0 <= i < events.len() && markup_has(
                #[trigger] events[i],
                "<!-- more -->"@,
            ) implies is_markup(out[i], "<span id=\"continue-reading\"></span>"@)
            && st.has_summary by {
            assert(transform::ends_summary(events[i]));
        }
    }
}

} // verus!
