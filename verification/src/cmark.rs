//! The events of a Markdown document, and the calls into `pulldown_cmark` at either end of a
//! rendering: the parser that yields the events, and the writer that turns them into HTML.

use crate::text;
use pulldown_cmark::html;
use pulldown_cmark::CodeBlockKind::{Fenced, Indented};
use pulldown_cmark::{Event, LinkType, Options, Parser, Tag, TagEnd};
use vstd::prelude::*;

verus! {

#[verifier::external_type_specification]
#[verifier::external_body]
pub struct ExEvent<'a>(pulldown_cmark::Event<'a>);

#[verifier::external_type_specification]
#[verifier::external_body]
pub struct ExTag<'a>(pulldown_cmark::Tag<'a>);

#[verifier::external_type_specification]
#[verifier::external_body]
pub struct ExTagEnd(pulldown_cmark::TagEnd);

#[verifier::external_type_specification]
#[verifier::external_body]
pub struct ExLinkType(pulldown_cmark::LinkType);

#[verifier::external_type_specification]
#[verifier::external_body]
#[verifier::reject_recursive_types(F)]
pub struct ExParser<'input, F>(pulldown_cmark::Parser<'input, F>);

#[verifier::external_type_specification]
#[verifier::external_body]
pub struct ExDefaultBrokenLinkCallback(pulldown_cmark::DefaultBrokenLinkCallback);

// ---------------------------------------------------------------------------------------------
// Events

/// How a link was written, as far as rendering tells links apart.
pub enum LinkKind {
    /// An email address between angle brackets.
    Email,
    /// Any other link.
    Other(pulldown_cmark::LinkType),
}

/// A tag that opens an element. What rendering does not look into is carried through as it is.
pub enum MdTag<'a> {
    /// A heading: its level, and the tag itself.
    Heading(u32, pulldown_cmark::Tag<'a>),
    IndentedCode,
    /// A fenced code block and its info string.
    FencedCode(String),
    /// A link: its kind, its destination, its title, its label.
    Link(LinkKind, String, String, String),
    /// An image: how it was written, its source, its title, its label.
    Image(pulldown_cmark::LinkType, String, String, String),
    Other(pulldown_cmark::Tag<'a>),
}

/// A tag that closes an element. What rendering does not look into is carried through as it is.
pub enum MdEnd {
    Heading(pulldown_cmark::TagEnd),
    CodeBlock,
    Other(pulldown_cmark::TagEnd),
}

/// An event of a document.
pub enum MdEvent<'a> {
    Start(MdTag<'a>),
    End(MdEnd),
    Text(String),
    /// Code within a line.
    Code(String),
    /// Markup that goes into the output as it stands.
    Html(String),
    /// Markup within a line.
    InlineHtml(String),
    Other(pulldown_cmark::Event<'a>),
}

/// What an `MdTag` holds.
pub enum TagView<'a> {
    Heading(u32, pulldown_cmark::Tag<'a>),
    IndentedCode,
    FencedCode(Seq<char>),
    Link(LinkKind, Seq<char>, Seq<char>, Seq<char>),
    Image(pulldown_cmark::LinkType, Seq<char>, Seq<char>, Seq<char>),
    Other(pulldown_cmark::Tag<'a>),
}

/// What an `MdEnd` holds.
pub enum EndView {
    Heading(pulldown_cmark::TagEnd),
    CodeBlock,
    Other(pulldown_cmark::TagEnd),
}

/// What an `MdEvent` holds.
pub enum EventView<'a> {
    Start(TagView<'a>),
    End(EndView),
    Text(Seq<char>),
    Code(Seq<char>),
    Html(Seq<char>),
    InlineHtml(Seq<char>),
    Other(pulldown_cmark::Event<'a>),
}

impl<'a> View for MdTag<'a> {
    type V = TagView<'a>;

    open spec fn view(&self) -> TagView<'a> {
        match *self {
            MdTag::Heading(level, tag) => TagView::Heading(level, tag),
            MdTag::IndentedCode => TagView::IndentedCode,
            MdTag::FencedCode(info) => TagView::FencedCode(info@),
            MdTag::Link(kind, link, title, label) => TagView::Link(kind, link@, title@, label@),
            MdTag::Image(kind, link, title, label) => TagView::Image(kind, link@, title@, label@),
            MdTag::Other(tag) => TagView::Other(tag),
        }
    }
}

impl View for MdEnd {
    type V = EndView;

    open spec fn view(&self) -> EndView {
        match *self {
            MdEnd::Heading(end) => EndView::Heading(end),
            MdEnd::CodeBlock => EndView::CodeBlock,
            MdEnd::Other(end) => EndView::Other(end),
        }
    }
}

impl<'a> View for MdEvent<'a> {
    type V = EventView<'a>;

    open spec fn view(&self) -> EventView<'a> {
        match *self {
            MdEvent::Start(tag) => EventView::Start(tag@),
            MdEvent::End(end) => EventView::End(end@),
            MdEvent::Text(text) => EventView::Text(text@),
            MdEvent::Code(text) => EventView::Code(text@),
            MdEvent::Html(text) => EventView::Html(text@),
            MdEvent::InlineHtml(text) => EventView::InlineHtml(text@),
            MdEvent::Other(event) => EventView::Other(event),
        }
    }
}

/// What the events of a list hold.
pub open spec fn views<'a>(events: Seq<MdEvent<'a>>) -> Seq<EventView<'a>> {
    events.map_values(|e: MdEvent<'a>| e@)
}

/// The markup that an event is.
pub open spec fn markup_of(event: EventView) -> Option<Seq<char>> {
    match event {
        EventView::Html(markup) => Some(markup),
        EventView::InlineHtml(markup) => Some(markup),
        _ => None,
    }
}

// ---------------------------------------------------------------------------------------------
// Events with their tags unopened

/// An event as it passes the border to `pulldown_cmark`, its tag unopened.
pub enum RawEvent<'a> {
    Start(pulldown_cmark::Tag<'a>),
    End(pulldown_cmark::TagEnd),
    Text(String),
    Code(String),
    Html(String),
    InlineHtml(String),
    Other(pulldown_cmark::Event<'a>),
}

/// What a `RawEvent` holds.
pub enum RawView<'a> {
    Start(pulldown_cmark::Tag<'a>),
    End(pulldown_cmark::TagEnd),
    Text(Seq<char>),
    Code(Seq<char>),
    Html(Seq<char>),
    InlineHtml(Seq<char>),
    Other(pulldown_cmark::Event<'a>),
}

impl<'a> View for RawEvent<'a> {
    type V = RawView<'a>;

    open spec fn view(&self) -> RawView<'a> {
        match *self {
            RawEvent::Start(tag) => RawView::Start(tag),
            RawEvent::End(end) => RawView::End(end),
            RawEvent::Text(text) => RawView::Text(text@),
            RawEvent::Code(text) => RawView::Code(text@),
            RawEvent::Html(text) => RawView::Html(text@),
            RawEvent::InlineHtml(text) => RawView::InlineHtml(text@),
            RawEvent::Other(event) => RawView::Other(event),
        }
    }
}

/// What the events of a list hold.
pub open spec fn raw_views<'a>(events: Seq<RawEvent<'a>>) -> Seq<RawView<'a>> {
    events.map_values(|e: RawEvent<'a>| e@)
}

/// The markup that an event is.
pub open spec fn raw_markup_of(event: RawView) -> Option<Seq<char>> {
    match event {
        RawView::Html(markup) => Some(markup),
        RawView::InlineHtml(markup) => Some(markup),
        _ => None,
    }
}

// ---------------------------------------------------------------------------------------------
// Names for what `pulldown_cmark` makes

/// The extensions of Markdown that the parser is asked for.
pub struct ParseOptions {
    pub tables: bool,
    /// Footnotes, and references to footnotes that are not there.
    pub footnotes: bool,
    pub strikethrough: bool,
    pub tasklists: bool,
}

/// The events that `pulldown_cmark` finds in a document.
pub uninterp spec fn parsed_events(
    content: Seq<char>,
    options: ParseOptions,
) -> Seq<RawView<'static>>;

/// The events that a parser has still to yield.
pub uninterp spec fn parser_events(parser: pulldown_cmark::Parser) -> Seq<RawView<'static>>;

/// The parts of a tag of `pulldown_cmark`.
pub uninterp spec fn tag_parts(tag: pulldown_cmark::Tag) -> TagView<'static>;

/// The tag of `pulldown_cmark` that has these parts.
pub uninterp spec fn tag_whole(parts: TagView) -> pulldown_cmark::Tag<'static>;

/// What a closing tag of `pulldown_cmark` closes.
pub uninterp spec fn end_parts(end: pulldown_cmark::TagEnd) -> EndView;

/// The closing tag of `pulldown_cmark` that closes this.
pub uninterp spec fn end_whole(parts: EndView) -> pulldown_cmark::TagEnd;

/// The HTML that `pulldown_cmark` writes for a list of events.
pub uninterp spec fn pushed_html(events: Seq<RawView>) -> Seq<char>;

// ---------------------------------------------------------------------------------------------
// Images

/// A tag is that of an image.
pub open spec fn is_image(tag: TagView) -> bool {
    match tag {
        TagView::Image(_, _, _, _) => true,
        TagView::Heading(_, t) => tag_parts(t) is Image,
        TagView::Other(t) => tag_parts(t) is Image,
        _ => false,
    }
}

/// The depth in an image behind an event, by the depth before it.
pub open spec fn depth_behind(n: nat, event: EventView) -> nat {
    match event {
        EventView::Start(tag) => if n > 0 || is_image(tag) {
            n + 1
        } else {
            0
        },
        EventView::End(_) => if n > 0 {
            (n - 1) as nat
        } else {
            0
        },
        _ => n,
    }
}

/// How deep in an image what follows the events stands, with the image itself counted: 0 outside
/// images.
pub open spec fn image_depth(events: Seq<EventView>) -> nat
    decreases events.len(),
{
    if events.len() == 0 {
        0
    } else {
        depth_behind(image_depth(events.drop_last()), events.last())
    }
}

/// How deep in an image what follows the events stands, with the image itself counted: 0 outside
/// images.
pub open spec fn raw_image_depth(events: Seq<RawView>) -> nat
    decreases events.len(),
{
    if events.len() == 0 {
        0
    } else {
        let n = raw_image_depth(events.drop_last());
        match events.last() {
            RawView::Start(tag) => if n > 0 || tag_parts(tag) is Image {
                n + 1
            } else {
                0
            },
            RawView::End(_) => if n > 0 {
                (n - 1) as nat
            } else {
                0
            },
            _ => n,
        }
    }
}

/// The event at `i` is markup, and does not stand in an image.
pub open spec fn is_open_markup(events: Seq<EventView>, i: int) -> bool {
    markup_of(events[i]) is Some && image_depth(events.take(i)) == 0
}

/// An event begins or ends a heading or a code block.
pub open spec fn is_block_event(event: EventView) -> bool {
    match event {
        EventView::Start(TagView::Heading(_, _)) => true,
        EventView::Start(TagView::IndentedCode) => true,
        EventView::Start(TagView::FencedCode(_)) => true,
        EventView::End(EndView::Heading(_)) => true,
        EventView::End(EndView::CodeBlock) => true,
        _ => false,
    }
}

/// No heading and no code block begins or ends within an image.
pub open spec fn blocks_outside_images(events: Seq<EventView>) -> bool {
    forall|i: int|
        0 <= i < events.len() && is_block_event(#[trigger] events[i]) ==> image_depth(
            events.take(i),
        ) == 0
}

/// Every tag that is that of an image is so openly.
pub open spec fn all_open(events: Seq<EventView>) -> bool {
    forall|i: int|
        0 <= i < events.len() ==> (#[trigger] events[i] matches EventView::Start(tag) ==> is_open(
            tag,
        ))
}

/// A tag that is that of an image is so openly.
pub open spec fn is_open(tag: TagView) -> bool {
    is_image(tag) ==> tag is Image
}

/// All markup among the events that does not stand in an image stands in the HTML.
pub open spec fn markup_shown(html: Seq<char>, events: Seq<EventView>) -> bool {
    forall|i: int|
        0 <= i < events.len() && #[trigger] is_open_markup(events, i) ==> text::contains(
            html,
            markup_of(events[i])->0,
        )
}

/// All markup among the events that does not stand in an image stands in the HTML.
pub open spec fn raw_markup_shown(html: Seq<char>, events: Seq<RawView>) -> bool {
    forall|i: int|
        0 <= i < events.len() && raw_markup_of(#[trigger] events[i]) is Some && raw_image_depth(
            events.take(i),
        ) == 0 ==> text::contains(html, raw_markup_of(events[i])->0)
}

// ---------------------------------------------------------------------------------------------
// The calls into `pulldown_cmark`

/// `Parser::new_ext`: a parser of `content` with the given extensions, all other extensions off,
/// that has all the events of the document still to yield.
#[verifier::external_body]
fn open_parser<'a>(content: &'a str, options: &ParseOptions) -> (parser: Parser<'a>)
    ensures
        parser_events(parser) == parsed_events(content@, *options),
{
    let mut flags = Options::empty();
    flags.set(Options::ENABLE_TABLES, options.tables);
    flags.set(Options::ENABLE_OLD_FOOTNOTES, options.footnotes);
    flags.set(Options::ENABLE_STRIKETHROUGH, options.strikethrough);
    flags.set(Options::ENABLE_TASKLISTS, options.tasklists);
    Parser::new_ext(content, flags)
}

/// `Parser::next`: yields the events of the document one after another, then `None`.
#[verifier::external_body]
fn next_event<'a>(parser: &mut Parser<'a>) -> (event: Option<RawEvent<'a>>)
    ensures
        event is None <==> parser_events(*old(parser)).len() == 0,
        event matches Some(e) ==> e@ == parser_events(*old(parser))[0] && parser_events(
            *final(parser),
        ) == parser_events(*old(parser)).drop_first(),
{
    Some(match parser.next()? {
        Event::Start(tag) => RawEvent::Start(tag),
        Event::End(end) => RawEvent::End(end),
        Event::Text(text) => RawEvent::Text(text.into_string()),
        Event::Code(text) => RawEvent::Code(text.into_string()),
        Event::Html(text) => RawEvent::Html(text.into_string()),
        Event::InlineHtml(text) => RawEvent::InlineHtml(text.into_string()),
        event => RawEvent::Other(event),
    })
}

/// Opens a tag: the variant of `Tag` that it is, and its fields. The tag that has these parts is
/// the one that was opened, and so is the tag that is carried through. A text counts as the same
/// however it is stored.
#[verifier::external_body]
fn open_tag<'a>(tag: Tag<'a>) -> (parts: MdTag<'a>)
    ensures
        parts@ == tag_parts(tag),
        tag == tag_whole(parts@),
        parts@ matches TagView::Heading(_, t) ==> t == tag,
        parts@ matches TagView::Other(t) ==> t == tag,
{
    match tag {
        Tag::Heading { level, .. } => MdTag::Heading(level as u32, tag),
        Tag::CodeBlock(Indented) => MdTag::IndentedCode,
        Tag::CodeBlock(Fenced(info)) => MdTag::FencedCode(info.into_string()),
        Tag::Link { link_type: LinkType::Email, dest_url, title, id } => MdTag::Link(
            LinkKind::Email, dest_url.into_string(), title.into_string(), id.into_string()),
        Tag::Link { link_type, dest_url, title, id } => MdTag::Link(
            LinkKind::Other(link_type), dest_url.into_string(), title.into_string(), id.into_string()),
        Tag::Image { link_type, dest_url, title, id } => MdTag::Image(
            link_type, dest_url.into_string(), title.into_string(), id.into_string()),
        tag => MdTag::Other(tag),
    }
}

/// Closes a tag: the `Tag` with these parts. It is an image exactly if the parts are those of one.
#[verifier::external_body]
fn close_tag<'a>(parts: MdTag<'a>) -> (tag: Tag<'a>)
    ensures
        tag == tag_whole(parts@),
        tag_parts(tag) is Image <==> is_image(parts@),
{
    match parts {
        MdTag::Heading(_, tag) => tag,
        MdTag::IndentedCode => Tag::CodeBlock(Indented),
        MdTag::FencedCode(s) => Tag::CodeBlock(Fenced(s.into())),
        MdTag::Link(LinkKind::Email, url, title, id) => Tag::Link {
            link_type: LinkType::Email, dest_url: url.into(), title: title.into(), id: id.into() },
        MdTag::Link(LinkKind::Other(link_type), url, title, id) => Tag::Link {
            link_type, dest_url: url.into(), title: title.into(), id: id.into() },
        MdTag::Image(link_type, url, title, id) => Tag::Image {
            link_type, dest_url: url.into(), title: title.into(), id: id.into() },
        MdTag::Other(tag) => tag,
    }
}

/// Opens a closing tag: the variant of `TagEnd` that it is. The closing tag that closes this is the
/// one that was opened.
#[verifier::external_body]
fn open_end(end: TagEnd) -> (parts: MdEnd)
    ensures
        parts@ == end_parts(end),
        end == end_whole(parts@),
{
    match end {
        TagEnd::Heading(_) => MdEnd::Heading(end),
        TagEnd::CodeBlock => MdEnd::CodeBlock,
        end => MdEnd::Other(end),
    }
}

/// Closes a closing tag: the `TagEnd` that closes this.
#[verifier::external_body]
fn close_end(parts: MdEnd) -> (end: TagEnd)
    ensures
        end == end_whole(parts@),
{
    match parts {
        MdEnd::Heading(end) => end,
        MdEnd::CodeBlock => TagEnd::CodeBlock,
        MdEnd::Other(end) => end,
    }
}

/// `html::push_html` on an empty string: the HTML of a list of events. Markup goes into it as it
/// stands, unless it stands in an image.
#[verifier::external_body]
fn push_html<'a>(events: Vec<RawEvent<'a>>) -> (r: String)
    ensures
        r@ == pushed_html(raw_views(events@)),
        raw_markup_shown(r@, raw_views(events@)),
{
    let mut r = String::new();
    html::push_html(&mut r, events.into_iter().map(|event| match event {
        RawEvent::Start(tag) => Event::Start(tag),
        RawEvent::End(end) => Event::End(end),
        RawEvent::Text(text) => Event::Text(text.into()),
        RawEvent::Code(text) => Event::Code(text.into()),
        RawEvent::Html(text) => Event::Html(text.into()),
        RawEvent::InlineHtml(text) => Event::InlineHtml(text.into()),
        RawEvent::Other(event) => event,
    }));
    r
}

// ---------------------------------------------------------------------------------------------
// Documents

/// The extensions that a page is written with.
pub open spec fn page_options() -> ParseOptions {
    ParseOptions { tables: true, footnotes: true, strikethrough: true, tasklists: true }
}

/// An event with its tag opened.
pub open spec fn opened<'a>(raw: RawView<'a>) -> EventView<'a> {
    match raw {
        RawView::Start(tag) => EventView::Start(tag_parts(tag)),
        RawView::End(end) => EventView::End(end_parts(end)),
        RawView::Text(text) => EventView::Text(text),
        RawView::Code(text) => EventView::Code(text),
        RawView::Html(text) => EventView::Html(text),
        RawView::InlineHtml(text) => EventView::InlineHtml(text),
        RawView::Other(event) => EventView::Other(event),
    }
}

/// An event with its tag closed.
pub open spec fn closed<'a>(event: EventView<'a>) -> RawView<'a> {
    match event {
        EventView::Start(tag) => RawView::Start(tag_whole(tag)),
        EventView::End(end) => RawView::End(end_whole(end)),
        EventView::Text(text) => RawView::Text(text),
        EventView::Code(text) => RawView::Code(text),
        EventView::Html(text) => RawView::Html(text),
        EventView::InlineHtml(text) => RawView::InlineHtml(text),
        EventView::Other(event) => RawView::Other(event),
    }
}

/// The events of a page: what the parser finds in it with the extensions of a page.
pub open spec fn page_events<'a>(content: Seq<char>) -> Seq<EventView<'a>> {
    parsed_events(content, page_options()).map_values(|e: RawView<'a>| opened(e))
}

/// The HTML of a list of events.
pub open spec fn html_of<'a>(events: Seq<EventView<'a>>) -> Seq<char> {
    pushed_html(events.map_values(|e: EventView<'a>| closed(e)))
}

/// Parses a page. Nothing is lost by it: the events as they come, written as HTML, are what
/// `pulldown_cmark` makes of the page. No tag that is carried through is that of an image.
pub fn parse_page<'a>(content: &'a str) -> (events: Vec<MdEvent<'a>>)
    ensures
        views(events@) == page_events(content@),
        html_of(views(events@)) == pushed_html(parsed_events(content@, page_options())),
        all_open(views(events@)),
{
    let options = ParseOptions {
        tables: true,
        footnotes: true,
        strikethrough: true,
        tasklists: true,
    };
    let mut parser = open_parser(content, &options);
    let mut events: Vec<MdEvent<'a>> = Vec::new();
    let ghost all = parser_events(parser);
    let ghost mut k: int = 0;
    assert(all.skip(0) =~= all);
    loop
        invariant_except_break
            parser_events(parser) == all.skip(k),
        invariant
            0 <= k <= all.len(),
            events@.len() == k,
            forall|i: int|
                0 <= i < k ==> (#[trigger] events@[i])@ == opened(all[i]) && closed(events@[i]@)
                    == all[i] && (events@[i]@ matches EventView::Start(tag) ==> is_open(tag)),
        ensures
            k == all.len(),
        decreases all.len() - k,
    {
        match next_event(&mut parser) {
            None => {
                break;
            },
            Some(raw) => {
                let event = match raw {
                    RawEvent::Start(tag) => MdEvent::Start(open_tag(tag)),
                    RawEvent::End(end) => MdEvent::End(open_end(end)),
                    RawEvent::Text(text) => MdEvent::Text(text),
                    RawEvent::Code(text) => MdEvent::Code(text),
                    RawEvent::Html(text) => MdEvent::Html(text),
                    RawEvent::InlineHtml(text) => MdEvent::InlineHtml(text),
                    RawEvent::Other(event) => MdEvent::Other(event),
                };
                events.push(event);
                proof {
                    assert(all.skip(k).drop_first() =~= all.skip(k + 1));
                    k = k + 1;
                }
            },
        }
    }
    assert(views(events@) =~= page_events(content@));
    assert(views(events@).map_values(|e: EventView<'a>| closed(e)) =~= all);
    events
}

/// Events that lead to the same depths one by one lead to the same depths in all.
pub proof fn lemma_same_depth<'a>(a: Seq<EventView<'a>>, b: Seq<EventView<'a>>)
    requires
        a.len() == b.len(),
        forall|i: int|
            0 <= i < a.len() ==> depth_behind(image_depth(a.take(i)), #[trigger] a[i])
                == depth_behind(image_depth(a.take(i)), b[i]),
    ensures
        forall|i: int|
            0 <= i <= a.len() ==> image_depth(#[trigger] b.take(i)) == image_depth(a.take(i)),
{
    assert forall|i: int| 0 <= i <= a.len() implies image_depth(#[trigger] b.take(i))
        == image_depth(a.take(i)) by {
        lemma_same_depth_to(a, b, i);
    }
}

proof fn lemma_same_depth_to<'a>(a: Seq<EventView<'a>>, b: Seq<EventView<'a>>, i: int)
    requires
        a.len() == b.len(),
        0 <= i <= a.len(),
        forall|j: int|
            0 <= j < a.len() ==> depth_behind(image_depth(a.take(j)), #[trigger] a[j])
                == depth_behind(image_depth(a.take(j)), b[j]),
    ensures
        image_depth(b.take(i)) == image_depth(a.take(i)),
    decreases i,
{
    if i > 0 {
        lemma_same_depth_to(a, b, i - 1);
        assert(a.take(i).drop_last() =~= a.take(i - 1));
        assert(b.take(i).drop_last() =~= b.take(i - 1));
        assert(a.take(i).last() == a[i - 1]);
        assert(b.take(i).last() == b[i - 1]);
    }
}

/// Markup put between events leaves the depth in images as it is.
pub proof fn lemma_insert_depth<'a>(
    events: Seq<EventView<'a>>,
    at: int,
    markup: Seq<char>,
    i: int,
)
    requires
        0 <= at <= events.len(),
        0 <= i <= events.len(),
    ensures
        i <= at ==> image_depth(events.insert(at, EventView::Html(markup)).take(i)) == image_depth(
            events.take(i),
        ),
        i >= at ==> image_depth(events.insert(at, EventView::Html(markup)).take(i + 1))
            == image_depth(events.take(i)),
    decreases i,
{
    let more = events.insert(at, EventView::Html(markup));
    if i <= at {
        assert(more.take(i) =~= events.take(i));
    }
    if i >= at {
        assert(more.take(i + 1).drop_last() =~= more.take(i));
        assert(more.take(i + 1).last() == more[i]);
        if i > at {
            lemma_insert_depth(events, at, markup, i - 1);
            assert(events.take(i).drop_last() =~= events.take(i - 1));
            assert(events.take(i).last() == events[i - 1]);
            assert(more[i] == events[i - 1]);
        }
    }
}

/// Closing the tags leaves the depth in images as it is.
proof fn lemma_raw_depth<'a>(events: Seq<EventView<'a>>, raw: Seq<RawView<'a>>)
    requires
        raw.len() == events.len(),
        forall|i: int| 0 <= i < events.len() ==> closes_to(#[trigger] events[i], raw[i]),
    ensures
        raw_image_depth(raw) == image_depth(events),
    decreases events.len(),
{
    if events.len() > 0 {
        assert forall|i: int| 0 <= i < events.len() - 1 implies closes_to(
            #[trigger] events.drop_last()[i],
            raw.drop_last()[i],
        ) by {
            assert(closes_to(events[i], raw[i]));
        }
        lemma_raw_depth(events.drop_last(), raw.drop_last());
        assert(closes_to(events[events.len() - 1], raw[raw.len() - 1]));
    }
}

/// An event is the other one with its tag closed, and both or neither begin an image.
spec fn closes_to<'a>(event: EventView<'a>, raw: RawView<'a>) -> bool {
    &&& raw == closed(event)
    &&& event matches EventView::Start(tag) ==> (tag_parts(tag_whole(tag)) is Image <==> is_image(
        tag,
    ))
}

/// Writes a list of events as HTML. All markup that does not stand in an image goes into it as it
/// stands.
pub fn render_events<'a>(events: Vec<MdEvent<'a>>) -> (r: String)
    ensures
        r@ == html_of(views(events@)),
        markup_shown(r@, views(events@)),
{
    let ghost all = events@;
    let mut raw: Vec<RawEvent<'a>> = Vec::new();
    for event in it: events.into_iter()
        invariant
            it.seq() == all,
            raw@.len() == it.index(),
            forall|i: int| 0 <= i < it.index() ==> closes_to(all[i]@, (#[trigger] raw@[i])@),
    {
        raw.push(match event {
            MdEvent::Start(tag) => RawEvent::Start(close_tag(tag)),
            MdEvent::End(end) => RawEvent::End(close_end(end)),
            MdEvent::Text(text) => RawEvent::Text(text),
            MdEvent::Code(text) => RawEvent::Code(text),
            MdEvent::Html(text) => RawEvent::Html(text),
            MdEvent::InlineHtml(text) => RawEvent::InlineHtml(text),
            MdEvent::Other(event) => RawEvent::Other(event),
        });
    }
    assert(raw_views(raw@) =~= views(all).map_values(|e: EventView<'a>| closed(e)));
    let ghost written = raw_views(raw@);
    let ghost given = views(all);
    assert forall|i: int| 0 <= i < given.len() implies closes_to(
        #[trigger] given[i],
        written[i],
    ) by {
        assert(written[i] == raw@[i]@);
    }
    let r = push_html(raw);
    assert forall|i: int| 0 <= i < given.len() && #[trigger] is_open_markup(
        given,
        i,
    ) implies text::contains(r@, markup_of(given[i])->0) by {
        assert(closes_to(given[i], written[i]));
        assert forall|j: int| 0 <= j < i implies closes_to(
            #[trigger] given.take(i)[j],
            written.take(i)[j],
        ) by {
            assert(closes_to(given[j], written[j]));
        }
        lemma_raw_depth(given.take(i), written.take(i));
        assert(raw_markup_of(written[i]) == markup_of(given[i]));
    }
    r
}

} // verus!
