//! The pass over the events of a page, in which code, links and shortcodes get their final form.

use crate::cmark::{EndView, EventView, LinkKind, MdEnd, MdEvent, MdTag, TagView};
use crate::code_block::{CodeBlockInfo, InfoView, CODE_TABLE_END};
use crate::context::{PageView, RenderContext};
use crate::error::{Error, ErrorView};
use crate::links::{InternalLinks, ResolvedView};
use crate::syntaxes::Config;
use crate::{cmark, code_block, context, error, headings, links, syntaxes, text};
use syntect::parsing::SyntaxReference;
use vstd::prelude::*;

verus! {

/// What stands where the summary of a page ends.
pub const CONTINUE_READING: &'static str = "<span id=\"continue-reading\"></span>";

// ---------------------------------------------------------------------------------------------
// The state of the pass

/// What the pass knows after some of the events.
pub struct Pass {
    /// Within a fenced code block: its highlighter, and whether it comes from the site's own set.
    pub highlighter: Option<(SyntaxReference, bool)>,
    /// What the last code block asks for, until its code has come.
    pub info: Option<CodeBlockInfo>,
    /// Whether the end of the summary has come.
    pub has_summary: bool,
    /// Within the output of a shortcode.
    pub in_html_block: bool,
    /// The last error.
    pub error: Option<Error>,
    /// The anchors on other pages that links need.
    pub internal_links_with_anchors: Vec<(String, String)>,
    pub external_links: Vec<String>,
}

/// What a `Pass` holds.
pub struct PassView {
    pub highlighter: Option<(SyntaxReference, bool)>,
    pub info: Option<InfoView>,
    pub has_summary: bool,
    pub in_html_block: bool,
    pub error: Option<ErrorView>,
    pub internal_links_with_anchors: Seq<(Seq<char>, Seq<char>)>,
    pub external_links: Seq<Seq<char>>,
}

impl View for Pass {
    type V = PassView;

    open spec fn view(&self) -> PassView {
        PassView {
            highlighter: self.highlighter,
            info: match self.info {
                Some(info) => Some(info@),
                None => None,
            },
            has_summary: self.has_summary,
            in_html_block: self.in_html_block,
            error: error::error_view(self.error),
            internal_links_with_anchors: links::pair_texts(self.internal_links_with_anchors@),
            external_links: text::texts(self.external_links@),
        }
    }
}

/// The state before the first event.
pub open spec fn first_state() -> PassView {
    PassView {
        highlighter: None,
        info: None,
        has_summary: false,
        in_html_block: false,
        error: None,
        internal_links_with_anchors: seq![],
        external_links: seq![],
    }
}

// ---------------------------------------------------------------------------------------------
// One event

/// A text: within a fenced code block it is the code, and the table that shows it takes its place.
/// The code comes in one piece.
pub open spec fn text_step<'a>(config: Config, st: PassView, t: Seq<char>) -> Option<
    (PassView, EventView<'a>),
> {
    match st.highlighter {
        None => Some((st, EventView::Text(t))),
        Some((syntax, in_extra)) => match (
            st.info,
            syntaxes::highlighter_set(in_extra, config),
        ) {
            (Some(info), Some(set)) => Some(
                (
                    PassView { info: None, ..st },
                    EventView::Html(
                        code_block::code_table(
                            info,
                            t,
                            syntaxes::classed_html(
                                syntax,
                                set,
                                syntaxes::code_style(),
                                syntaxes::code_lines(t),
                            ),
                        ),
                    ),
                ),
            ),
            _ => None,
        },
    }
}

/// The start of an indented code block.
pub open spec fn indented_step<'a>(config: Config, st: PassView) -> (PassView, EventView<'a>) {
    if config.highlight_code {
        (
            PassView { info: Some(code_block::empty_info()), ..st },
            EventView::Html(Seq::<char>::empty()),
        )
    } else {
        (st, EventView::Html("<pre><code>"@))
    }
}

/// The start of a fenced code block: its info string must have a meaning, and its language a
/// highlighter.
pub open spec fn fenced_step<'a>(config: Config, st: PassView, line: Seq<char>) -> Option<
    (PassView, EventView<'a>),
> {
    if !config.highlight_code {
        Some((st, EventView::Html("<pre><code>"@)))
    } else if !code_block::has_info(line) {
        None
    } else {
        let info = code_block::line_info(line);
        match syntaxes::highlighter(info.language, config) {
            Some(h) => Some(
                (
                    PassView { highlighter: Some(h), info: Some(info), ..st },
                    EventView::Html(Seq::<char>::empty()),
                ),
            ),
            None => None,
        }
    }
}

/// The end of a code block.
pub open spec fn code_end_step<'a>(config: Config, st: PassView) -> (PassView, EventView<'a>) {
    if config.highlight_code {
        (PassView { highlighter: None, ..st }, EventView::Html(CODE_TABLE_END@))
    } else {
        (st, EventView::Html("</code></pre>\n"@))
    }
}

/// The source that an image gets.
pub open spec fn image_source(page: PageView, src: Seq<char>) -> Seq<char> {
    if links::is_colocated(src) {
        page.permalink + src
    } else {
        src
    }
}

/// The start of a link.
pub open spec fn link_step<'a>(
    page: PageView,
    st: PassView,
    kind: LinkKind,
    link: Seq<char>,
    title: Seq<char>,
    label: Seq<char>,
) -> (PassView, EventView<'a>) {
    if link.len() == 0 {
        (
            PassView { error: Some(ErrorView::MissingUrl), ..st },
            EventView::Start(TagView::Link(kind, "#"@, title, label)),
        )
    } else {
        let noted = PassView {
            internal_links_with_anchors: st.internal_links_with_anchors + links::needed_anchor(
                kind,
                link,
                page.links,
            ),
            external_links: st.external_links + links::external_target(kind, link),
            ..st
        };
        match links::fixed_link(kind, link, page.permalink, page.links) {
            Ok(fixed) => (noted, EventView::Start(TagView::Link(kind, fixed, title, label))),
            Err(e) => (
                PassView { error: Some(e), ..noted },
                EventView::Html(Seq::<char>::empty()),
            ),
        }
    }
}

/// Whether markup holds the end of the summary.
pub open spec fn is_summary_end(markup: Seq<char>) -> bool {
    text::contains(markup, "<!-- more -->"@)
}

/// Markup: the end of the summary becomes the place where reading continues; around the output of a
/// shortcode the `pre` element that protected it is taken away.
pub open spec fn html_step(st: PassView, markup: Seq<char>) -> (PassView, Seq<char>) {
    if is_summary_end(markup) {
        (PassView { has_summary: true, ..st }, CONTINUE_READING@)
    } else if st.in_html_block && text::contains(markup, "</pre>"@) {
        (
            PassView { in_html_block: false, ..st },
            text::replace_first(markup, "</pre>"@, seq![]),
        )
    } else if text::contains(markup, "pre data-shortcode"@) {
        let opened = text::replace_first(markup, "<pre data-shortcode>"@, seq![]);
        if text::contains(opened, "</pre>"@) {
            (
                PassView { in_html_block: false, ..st },
                text::replace_first(opened, "</pre>"@, seq![]),
            )
        } else {
            (PassView { in_html_block: true, ..st }, opened)
        }
    } else {
        (st, markup)
    }
}

/// What becomes of one event, and of the state. `None` if the event has no rendering.
pub open spec fn step<'a>(page: PageView, st: PassView, event: EventView<'a>) -> Option<
    (PassView, EventView<'a>),
> {
    match event {
        EventView::Text(t) => text_step(page.config, st, t),
        EventView::Start(TagView::IndentedCode) => Some(indented_step(page.config, st)),
        EventView::Start(TagView::FencedCode(line)) => fenced_step(page.config, st, line),
        EventView::End(EndView::CodeBlock) => Some(code_end_step(page.config, st)),
        EventView::Start(TagView::Image(kind, src, title, label)) => Some(
            (st, EventView::Start(TagView::Image(kind, image_source(page, src), title, label))),
        ),
        EventView::Start(TagView::Link(kind, link, title, label)) => Some(
            link_step(page, st, kind, link, title, label),
        ),
        EventView::Html(markup) => {
            let (st2, html) = html_step(st, markup);
            Some((st2, EventView::Html(html)))
        },
        EventView::InlineHtml(markup) => {
            let (st2, html) = html_step(st, markup);
            Some((st2, EventView::InlineHtml(html)))
        },
        _ => Some((st, event)),
    }
}

// ---------------------------------------------------------------------------------------------
// All events

/// What becomes of a list of events, and the state after them. `None` if one of them has no
/// rendering.
pub open spec fn pass<'a>(page: PageView, events: Seq<EventView<'a>>) -> Option<
    (PassView, Seq<EventView<'a>>),
>
    decreases events.len(),
{
    if events.len() == 0 {
        Some((first_state(), seq![]))
    } else {
        match pass(page, events.drop_last()) {
            None => None,
            Some((st, out)) => match step(page, st, events.last()) {
                None => None,
                Some((st2, event)) => Some((st2, out.push(event))),
            },
        }
    }
}

impl Pass {
    /// There is a highlighter only if code is highlighted, and it belongs to the set that it is said
    /// to come from.
    pub open spec fn wf(&self, config: Config) -> bool {
        self.highlighter matches Some((syntax, in_extra)) ==> {
            &&& config.highlight_code
            &&& syntaxes::highlighter_set(in_extra, config) is Some
            &&& syntaxes::set_syntaxes(
                syntaxes::highlighter_set(in_extra, config)->0,
            ).contains(syntax)
        }
    }

    /// The state before the first event.
    pub fn new() -> (r: Pass)
        ensures
            r@ == first_state(),
            forall|config: Config| r.wf(config),
    {
        let r = Pass {
            highlighter: None,
            info: None,
            has_summary: false,
            in_html_block: false,
            error: None,
            internal_links_with_anchors: Vec::new(),
            external_links: Vec::new(),
        };
        assert(r@.internal_links_with_anchors =~= seq![]);
        assert(r@.external_links =~= seq![]);
        r
    }

    /// Takes a text.
    fn take_text<'a>(&mut self, t: String, config: &Config) -> (r: Option<MdEvent<'a>>)
        requires
            old(self).wf(*config),
            syntaxes::config_is_sound(*config),
        ensures
            match r {
                Some(e) => text_step(*config, old(self)@, t@) == Some((final(self)@, e@))
                    && final(self).wf(*config),
                None => text_step::<'a>(*config, old(self)@, t@) is None,
            },
    {
        let ghost before = self@;
        match &self.highlighter {
            None => Some(MdEvent::Text(t)),
            Some(pair) => {
                let set = if pair.1 {
                    match &config.extra_syntax_set {
                        Some(extra) => extra,
                        None => {
                            return None;
                        },
                    }
                } else {
                    &config.syntax_set
                };
                match self.info.take() {
                    None => None,
                    Some(info) => {
                        let highlighted = syntaxes::highlight(&pair.0, set, t.as_str());
                        let html = code_block::write_code_table(&info, t.as_str(), highlighted);
                        Some(MdEvent::Html(html))
                    },
                }
            },
        }
    }

    /// Takes the start of a fenced code block.
    fn take_fence<'a>(&mut self, line: String, config: &Config) -> (r: Option<MdEvent<'a>>)
        requires
            old(self).wf(*config),
        ensures
            match r {
                Some(e) => fenced_step(*config, old(self)@, line@) == Some((final(self)@, e@))
                    && final(self).wf(*config),
                None => fenced_step::<'a>(*config, old(self)@, line@) is None,
            },
    {
        if !config.highlight_code {
            return Some(MdEvent::Html(String::from_str("<pre><code>")));
        }
        if !code_block::check_info(line.as_str()) {
            return None;
        }
        let info = code_block::parse_info(line.as_str());
        if !syntaxes::has_highlighter(info.language.as_str(), config) {
            return None;
        }
        proof {
            syntaxes::lemma_highlighter_in_its_set(info.language@, *config);
        }
        self.highlighter = Some(syntaxes::get_highlighter(info.language.as_str(), config));
        self.info = Some(info);
        Some(MdEvent::Html(String::new()))
    }

    /// Takes the end of a code block.
    fn take_code_end<'a>(&mut self, config: &Config) -> (r: MdEvent<'a>)
        requires
            old(self).wf(*config),
        ensures
            code_end_step(*config, old(self)@) == (final(self)@, r@),
            final(self).wf(*config),
    {
        if config.highlight_code {
            self.highlighter = None;
            MdEvent::Html(String::from_str(CODE_TABLE_END))
        } else {
            MdEvent::Html(String::from_str("</code></pre>\n"))
        }
    }

    /// Takes the start of a link.
    fn take_link<'a>(
        &mut self,
        kind: LinkKind,
        link: String,
        title: String,
        label: String,
        context: &RenderContext,
        links: &InternalLinks,
    ) -> (r: MdEvent<'a>)
        requires
            old(self).wf(*context.config),
        ensures
            link_step(
                context::page_view(context, links),
                old(self)@,
                kind,
                link@,
                title@,
                label@,
            ) == (final(self)@, r@),
            final(self).wf(*context.config),
    {
        if link.as_str().is_empty() {
            self.error = Some(Error::MissingUrl);
            return MdEvent::Start(MdTag::Link(kind, String::from_str("#"), title, label));
        }
        let fixed = links::fix_link(
            &kind,
            link.as_str(),
            context.current_page_permalink,
            links,
            &mut self.internal_links_with_anchors,
            &mut self.external_links,
        );
        match fixed {
            Ok(fixed) => MdEvent::Start(MdTag::Link(kind, fixed, title, label)),
            Err(e) => {
                self.error = Some(e);
                MdEvent::Html(String::new())
            },
        }
    }

    /// Takes markup.
    fn take_html(&mut self, markup: String) -> (r: String)
        ensures
            html_step(old(self)@, markup@) == (final(self)@, r@),
            final(self).highlighter == old(self).highlighter,
    {
        proof {
            reveal_strlit("");
            assert(""@ =~= seq![]);
        }
        if text::contains_text(markup.as_str(), "<!-- more -->") {
            self.has_summary = true;
            String::from_str(CONTINUE_READING)
        } else if self.in_html_block && text::contains_text(markup.as_str(), "</pre>") {
            self.in_html_block = false;
            text::replace_first_text(markup.as_str(), "</pre>", "")
        } else if text::contains_text(markup.as_str(), "pre data-shortcode") {
            let opened = text::replace_first_text(markup.as_str(), "<pre data-shortcode>", "");
            if text::contains_text(opened.as_str(), "</pre>") {
                self.in_html_block = false;
                text::replace_first_text(opened.as_str(), "</pre>", "")
            } else {
                self.in_html_block = true;
                opened
            }
        } else {
            markup
        }
    }

    /// Takes one event and gives it its final form. `None` if it has no rendering.
    pub fn step<'a>(
        &mut self,
        event: MdEvent<'a>,
        context: &RenderContext,
        links: &InternalLinks,
    ) -> (r: Option<MdEvent<'a>>)
        requires
            old(self).wf(*context.config),
            syntaxes::config_is_sound(*context.config),
        ensures
            match r {
                Some(e) => step(context::page_view(context, links), old(self)@, event@) == Some(
                    (final(self)@, e@),
                ) && final(self).wf(*context.config),
                None => step(context::page_view(context, links), old(self)@, event@) is None,
            },
    {
        match event {
            MdEvent::Text(t) => self.take_text(t, context.config),
            MdEvent::Start(MdTag::IndentedCode) => {
                if context.config.highlight_code {
                    self.info = Some(CodeBlockInfo::default());
                    Some(MdEvent::Html(String::new()))
                } else {
                    Some(MdEvent::Html(String::from_str("<pre><code>")))
                }
            },
            MdEvent::Start(MdTag::FencedCode(line)) => self.take_fence(line, context.config),
            MdEvent::End(MdEnd::CodeBlock) => Some(self.take_code_end(context.config)),
            MdEvent::Start(MdTag::Image(kind, src, title, label)) => {
                if links::is_colocated_asset_link(src.as_str()) {
                    let mut link = String::from_str(context.current_page_permalink);
                    link.append(src.as_str());
                    Some(MdEvent::Start(MdTag::Image(kind, link, title, label)))
                } else {
                    Some(MdEvent::Start(MdTag::Image(kind, src, title, label)))
                }
            },
            MdEvent::Start(MdTag::Link(kind, link, title, label)) => {
                Some(self.take_link(kind, link, title, label, context, links))
            },
            MdEvent::Html(markup) => Some(MdEvent::Html(self.take_html(markup))),
            MdEvent::InlineHtml(markup) => Some(MdEvent::InlineHtml(self.take_html(markup))),
            event => Some(event),
        }
    }
}

/// Takes all events of a page and gives them their final form. `None` if one of them has no
/// rendering.
pub fn transform<'a>(
    events: Vec<MdEvent<'a>>,
    context: &RenderContext,
    links: &InternalLinks,
) -> (r: Option<(Pass, Vec<MdEvent<'a>>)>)
    requires
        syntaxes::config_is_sound(*context.config),
    ensures
        match r {
            Some((state, out)) => pass(context::page_view(context, links), cmark::views(events@)) == Some(
                (state@, cmark::views(out@)),
            ),
            None => pass(context::page_view(context, links), cmark::views(events@)) is None,
        },
{
    let ghost page = context::page_view(context, links);
    let ghost all = cmark::views(events@);
    let mut state = Pass::new();
    let mut out: Vec<MdEvent<'a>> = Vec::new();
    assert(all.take(0) =~= seq![]);
    assert(cmark::views(out@) =~= seq![]);
    for event in it: events.into_iter()
        invariant
            page == context::page_view(context, links),
            all == cmark::views(it.seq()),
            state.wf(*context.config),
            syntaxes::config_is_sound(*context.config),
            pass(page, all.take(it.index() as int)) == Some((state@, cmark::views(out@))),
    {
        let ghost k = it.index() as int;
        let ghost before = cmark::views(out@);
        assert(all.take(k + 1).drop_last() =~= all.take(k));
        assert(all.take(k + 1).last() == event@);
        match state.step(event, context, links) {
            Some(e) => {
                out.push(e);
                assert(cmark::views(out@) =~= before.push(e@));
            },
            None => {
                proof {
                    lemma_pass_fails(page, all, k + 1);
                }
                return None;
            },
        }
    }
    assert(all.take(all.len() as int) =~= all);
    Some((state, out))
}

/// If a beginning of the events has no rendering, the whole has none.
proof fn lemma_pass_fails<'a>(page: PageView, events: Seq<EventView<'a>>, k: int)
    requires
        0 <= k <= events.len(),
        pass(page, events.take(k)) is None,
    ensures
        pass(page, events) is None,
    decreases events.len(),
{
    if k == events.len() {
        assert(events.take(k) =~= events);
    } else {
        assert(events.drop_last().take(k) =~= events.take(k));
        lemma_pass_fails(page, events.drop_last(), k);
    }
}

// ---------------------------------------------------------------------------------------------
// Laws of the pass

/// An event that the pass leaves as it is in any state: it belongs neither to a code block nor to a
/// link or an image, and is neither a text nor markup.
pub open spec fn is_kept(event: EventView) -> bool {
    match event {
        EventView::Start(TagView::Heading(_, _)) => true,
        EventView::Start(TagView::Other(_)) => true,
        EventView::Start(_) => false,
        EventView::End(EndView::CodeBlock) => false,
        EventView::End(_) => true,
        EventView::Text(_) => false,
        EventView::Html(_) => false,
        EventView::InlineHtml(_) => false,
        EventView::Code(_) => true,
        EventView::Other(_) => true,
    }
}

/// The pass makes one event of each event. It keeps those that it has no business with, and it
/// neither opens nor closes a heading.
pub proof fn lemma_pass_keeps<'a>(page: PageView, events: Seq<EventView<'a>>)
    ensures
        pass(page, events) matches Some((st, out)) ==> {
            &&& out.len() == events.len()
            &&& forall|i: int|
                0 <= i < out.len() && is_kept(events[i]) ==> #[trigger] out[i] == events[i]
            &&& forall|i: int|
                0 <= i < out.len() && !is_kept(events[i]) ==> !headings::is_heading_start(
                    #[trigger] out[i],
                ) && !headings::is_heading_end(out[i])
        },
    decreases events.len(),
{
    if events.len() > 0 {
        let rest = events.drop_last();
        lemma_pass_keeps(page, rest);
        if let Some((st, out)) = pass(page, events) {
            let (st0, out0) = pass(page, rest)->0;
            assert(out.drop_last() =~= out0);
            assert forall|i: int| 0 <= i < out.len() && is_kept(events[i]) implies #[trigger] out[i]
                == events[i] by {
                if i < rest.len() {
                    assert(out[i] == out0[i]);
                    assert(rest[i] == events[i]);
                }
            }
            assert forall|i: int| 0 <= i < out.len() && !is_kept(events[i]) implies
                !headings::is_heading_start(#[trigger] out[i]) && !headings::is_heading_end(
                out[i],
            ) by {
                if i < rest.len() {
                    assert(out[i] == out0[i]);
                    assert(rest[i] == events[i]);
                }
            }
        }
    }
}

/// The pass leaves the headings where they are.
pub proof fn lemma_pass_keeps_headings<'a>(page: PageView, events: Seq<EventView<'a>>)
    ensures
        pass(page, events) matches Some((st, out)) ==> {
            &&& headings::heading_refs(out) == headings::heading_refs(events)
            &&& headings::headings_closed(out) == headings::headings_closed(events)
        },
{
    lemma_pass_keeps(page, events);
    if let Some((st, out)) = pass(page, events) {
        assert forall|i: int| 0 <= i < events.len() implies same_heading(
            #[trigger] events[i],
            out[i],
        ) by {
            assert(is_kept(events[i]) ==> out[i] == events[i]);
            assert(headings::is_heading_start(out[i]) ==> is_kept(events[i]));
            assert(headings::is_heading_end(out[i]) ==> is_kept(events[i]));
        }
        lemma_same_headings(events, out);
        if headings::starts_first(events) {
            lemma_same_starts(events, out);
        }
        if headings::starts_first(out) {
            assert forall|i: int| 0 <= i < out.len() implies same_heading(
                #[trigger] out[i],
                events[i],
            ) by {
                assert(same_heading(events[i], out[i]));
            }
            lemma_same_starts(out, events);
        }
    }
}

/// Two events say the same of headings.
spec fn same_heading(a: EventView, b: EventView) -> bool {
    &&& headings::is_heading_start(a) || headings::is_heading_start(b) ==> a == b
    &&& headings::is_heading_end(a) || headings::is_heading_end(b) ==> a == b
}

proof fn lemma_same_headings<'a>(a: Seq<EventView<'a>>, b: Seq<EventView<'a>>)
    requires
        a.len() == b.len(),
        forall|i: int| 0 <= i < a.len() ==> same_heading(#[trigger] a[i], b[i]),
    ensures
        headings::heading_refs(a) == headings::heading_refs(b),
    decreases a.len(),
{
    if a.len() > 0 {
        assert forall|i: int| 0 <= i < a.drop_last().len() implies same_heading(
            #[trigger] a.drop_last()[i],
            b.drop_last()[i],
        ) by {
            assert(same_heading(a[i], b[i]));
        }
        lemma_same_headings(a.drop_last(), b.drop_last());
        assert(same_heading(a[a.len() - 1], b[a.len() - 1]));
    }
}

proof fn lemma_same_starts<'a>(a: Seq<EventView<'a>>, b: Seq<EventView<'a>>)
    requires
        a.len() == b.len(),
        forall|i: int| 0 <= i < a.len() ==> same_heading(#[trigger] a[i], b[i]),
        headings::starts_first(a),
    ensures
        headings::starts_first(b),
{
    assert forall|i: int| 0 <= i < b.len() && headings::is_heading_end(#[trigger] b[i]) implies
        exists|j: int| 0 <= j < i && headings::is_heading_start(#[trigger] b[j]) by {
        assert(same_heading(a[i], b[i]));
        assert(headings::is_heading_end(a[i]));
        let j = choose|j: int| 0 <= j < i && headings::is_heading_start(#[trigger] a[j]);
        assert(same_heading(a[j], b[j]));
        assert(headings::is_heading_start(b[j]));
    }
}

/// What is wrong with an event: a link that has no destination, or an internal link that leads
/// nowhere.
pub open spec fn link_error(page: PageView, event: EventView) -> Option<ErrorView> {
    match event {
        EventView::Start(TagView::Link(kind, link, _, _)) => if link.len() == 0 {
            Some(ErrorView::MissingUrl)
        } else {
            match links::fixed_link(kind, link, page.permalink, page.links) {
                Ok(_) => None,
                Err(e) => Some(e),
            }
        },
        _ => None,
    }
}

/// What is wrong with the last of the events with which something is wrong.
pub open spec fn last_error(page: PageView, events: Seq<EventView>) -> Option<ErrorView>
    decreases events.len(),
{
    if events.len() == 0 {
        None
    } else {
        match link_error(page, events.last()) {
            Some(e) => Some(e),
            None => last_error(page, events.drop_last()),
        }
    }
}

/// The error that the pass ends with is that of the last bad link. There is none exactly if no link
/// is bad.
pub proof fn lemma_pass_error<'a>(page: PageView, events: Seq<EventView<'a>>)
    ensures
        pass(page, events) matches Some((st, out)) ==> st.error == last_error(page, events),
        last_error(page, events) is None <==> forall|i: int|
            0 <= i < events.len() ==> link_error(page, #[trigger] events[i]) is None,
    decreases events.len(),
{
    if events.len() > 0 {
        let rest = events.drop_last();
        lemma_pass_error(page, rest);
        assert(events.last() == events[events.len() - 1]);
        if last_error(page, events) is None {
            assert forall|i: int| 0 <= i < events.len() implies link_error(
                page,
                #[trigger] events[i],
            ) is None by {
                if i < rest.len() {
                    assert(rest[i] == events[i]);
                }
            }
        }
        if forall|i: int| 0 <= i < events.len() ==> link_error(page, #[trigger] events[i]) is None {
            assert forall|i: int| 0 <= i < rest.len() implies link_error(
                page,
                #[trigger] rest[i],
            ) is None by {
                assert(rest[i] == events[i]);
            }
        }
    }
}

/// The external addresses that the links among the events lead to, in their order.
pub open spec fn external_targets(events: Seq<EventView>) -> Seq<Seq<char>>
    decreases events.len(),
{
    if events.len() == 0 {
        seq![]
    } else {
        let before = external_targets(events.drop_last());
        match events.last() {
            EventView::Start(TagView::Link(kind, link, _, _)) => before + links::external_target(
                kind,
                link,
            ),
            _ => before,
        }
    }
}

/// The anchors on other pages that the links among the events need, in their order.
pub open spec fn needed_anchors(
    links: Seq<(Seq<char>, ResolvedView)>,
    events: Seq<EventView>,
) -> Seq<(Seq<char>, Seq<char>)>
    decreases events.len(),
{
    if events.len() == 0 {
        seq![]
    } else {
        let before = needed_anchors(links, events.drop_last());
        match events.last() {
            EventView::Start(TagView::Link(kind, link, _, _)) => before + links::needed_anchor(
                kind,
                link,
                links,
            ),
            _ => before,
        }
    }
}

/// The pass notes every external address and every anchor that a link needs, in their order and as
/// often as they come, and nothing else.
pub proof fn lemma_pass_notes_links<'a>(page: PageView, events: Seq<EventView<'a>>)
    ensures
        pass(page, events) matches Some((st, out)) ==> {
            &&& st.external_links == external_targets(events)
            &&& st.internal_links_with_anchors == needed_anchors(page.links, events)
        },
    decreases events.len(),
{
    if events.len() > 0 {
        lemma_pass_notes_links(page, events.drop_last());
        if let EventView::Start(TagView::Link(kind, link, _, _)) = events.last() {
            if link.len() == 0 {
                reveal_strlit("http:");
                reveal_strlit("https:");
                reveal_strlit("@/");
                let before = external_targets(events.drop_last());
                assert(before + seq![] =~= before);
                let needed = needed_anchors(page.links, events.drop_last());
                assert(needed + seq![] =~= needed);
            }
        }
    }
}

/// An event that ends the summary.
pub open spec fn ends_summary(event: EventView) -> bool {
    cmark::markup_of(event) matches Some(markup) && is_summary_end(markup)
}

/// The page has a summary exactly if some markup ends it, and the place where reading continues
/// stands where that markup stood.
pub proof fn lemma_pass_summary<'a>(page: PageView, events: Seq<EventView<'a>>)
    ensures
        pass(page, events) matches Some((st, out)) ==> {
            &&& st.has_summary <==> exists|i: int|
                0 <= i < events.len() && ends_summary(#[trigger] events[i])
            &&& forall|i: int|
                0 <= i < events.len() && ends_summary(#[trigger] events[i]) ==> cmark::markup_of(
                    out[i],
                ) == Some(CONTINUE_READING@)
        },
    decreases events.len(),
{
    lemma_pass_keeps(page, events);
    if events.len() > 0 {
        let rest = events.drop_last();
        lemma_pass_summary(page, rest);
        lemma_pass_keeps(page, rest);
        if let Some((st, out)) = pass(page, events) {
            let (st0, out0) = pass(page, rest)->0;
            assert(events.last() == events[events.len() - 1]);
            assert(out.drop_last() =~= out0);
            if st0.has_summary {
                let i = choose|i: int| 0 <= i < rest.len() && ends_summary(#[trigger] rest[i]);
                assert(ends_summary(events[i]));
            }
            assert forall|i: int|
                0 <= i < events.len() && ends_summary(#[trigger] events[i]) implies cmark::markup_of(
                out[i],
            ) == Some(CONTINUE_READING@) && st.has_summary by {
                if i < rest.len() {
                    assert(ends_summary(rest[i]));
                    assert(out[i] == out0[i]);
                }
            }
        }
    }
}

/// If code is not highlighted, every page comes through the pass, and its texts stay as they are.
pub proof fn lemma_pass_without_highlighting<'a>(page: PageView, events: Seq<EventView<'a>>)
    requires
        !page.config.highlight_code,
    ensures
        pass(page, events) matches Some((st, out)) && st.highlighter is None && st.info is None
            && out.len() == events.len() && forall|i: int|
            0 <= i < events.len() && (#[trigger] events[i]) is Text ==> out[i] == events[i],
    decreases events.len(),
{
    if events.len() > 0 {
        let rest = events.drop_last();
        lemma_pass_without_highlighting(page, rest);
        let (st0, out0) = pass(page, rest)->0;
        let (st, out) = pass(page, events)->0;
        assert(out.drop_last() =~= out0);
        assert forall|i: int| 0 <= i < events.len() && (#[trigger] events[i]) is Text implies out[i]
            == events[i] by {
            if i < rest.len() {
                assert(rest[i] == events[i]);
                assert(out[i] == out0[i]);
            }
        }
    }
}

/// A fenced code block whose code comes in one piece becomes the table that shows the code,
/// whatever came before it, and leaves nothing of itself in the state.
pub proof fn lemma_fenced_block<'a>(
    page: PageView,
    st: PassView,
    line: Seq<char>,
    code: Seq<char>,
)
    requires
        page.config.highlight_code,
        code_block::has_info(line),
        syntaxes::highlighter(code_block::line_info(line).language, page.config) is Some,
    ensures
        ({
            let info = code_block::line_info(line);
            let (syntax, in_extra) = syntaxes::highlighter(info.language, page.config)->0;
            let set = syntaxes::highlighter_set(in_extra, page.config)->0;
            let start = step(page, st, EventView::<'a>::Start(TagView::FencedCode(line)))->0;
            let text = step(page, start.0, EventView::<'a>::Text(code));
            let end = step(page, (text->0).0, EventView::<'a>::End(EndView::CodeBlock));
            &&& start.1 == EventView::<'a>::Html(Seq::<char>::empty())
            &&& text matches Some((_, shown)) && shown == EventView::<'a>::Html(
                code_block::code_table(
                    info,
                    code,
                    syntaxes::classed_html(
                        syntax,
                        set,
                        syntaxes::code_style(),
                        syntaxes::code_lines(code),
                    ),
                ),
            )
            &&& end == Some(
                (
                    PassView { highlighter: None, info: None, ..st },
                    EventView::<'a>::Html(CODE_TABLE_END@),
                ),
            )
        }),
{
    syntaxes::lemma_highlighter_in_its_set(code_block::line_info(line).language, page.config);
}

/// The tag that closes the output of a shortcode has one angle bracket that opens it.
proof fn lemma_close_tag()
    ensures
        "</pre>"@.len() > 0,
        forall|k: int| 0 < k < "</pre>"@.len() ==> #[trigger] "</pre>"@[k] != "</pre>"@[0],
{
    reveal_strlit("</pre>");
}

/// The output of a shortcode that comes in one piece of markup comes out bare: the `pre` element
/// that protected it goes away.
pub proof fn lemma_shortcode(st: PassView, body: Seq<char>)
    requires
        !st.in_html_block,
        !text::contains(body, "</pre>"@),
        !is_summary_end("<pre data-shortcode>"@ + body + "</pre>"@),
    ensures
        html_step(st, "<pre data-shortcode>"@ + body + "</pre>"@) == (
            st,
            body,
        ),
{
    reveal_strlit("<pre data-shortcode>");
    reveal_strlit("pre data-shortcode");
    let open = "<pre data-shortcode>"@;
    let close = "</pre>"@;
    let markup = open + body + close;
    assert(markup.subrange(1, 19) =~= "pre data-shortcode"@);
    assert(text::occurs_at(markup, "pre data-shortcode"@, 1));
    assert(markup.subrange(0, 20) =~= open);
    assert(text::occurs_at(markup, open, 0));
    let opened = text::replace_first(markup, open, seq![]);
    assert(opened =~= body + close + Seq::<char>::empty());
    lemma_close_tag();
    text::lemma_replace_behind(body, close, seq![], seq![]);
    assert(body + Seq::<char>::empty() + Seq::<char>::empty() =~= body);
}

/// Markup that opens the output of a shortcode comes out without the tag that opens it.
pub proof fn lemma_shortcode_opens(st: PassView, body: Seq<char>)
    requires
        !st.in_html_block,
        !text::contains(body, "</pre>"@),
        !is_summary_end("<pre data-shortcode>"@ + body),
    ensures
        html_step(st, "<pre data-shortcode>"@ + body) == (
            PassView { in_html_block: true, ..st },
            body,
        ),
{
    reveal_strlit("<pre data-shortcode>");
    reveal_strlit("pre data-shortcode");
    let open = "<pre data-shortcode>"@;
    let markup = open + body;
    assert(markup.subrange(1, 19) =~= "pre data-shortcode"@);
    assert(text::occurs_at(markup, "pre data-shortcode"@, 1));
    assert(markup.subrange(0, 20) =~= open);
    assert(text::occurs_at(markup, open, 0));
    assert(text::replace_first(markup, open, seq![]) =~= body);
}

/// Within the output of a shortcode, the markup that closes it comes out without the tag that closes
/// it.
pub proof fn lemma_shortcode_closes(st: PassView, body: Seq<char>, tail: Seq<char>)
    requires
        st.in_html_block,
        !text::contains(body, "</pre>"@),
        !is_summary_end(body + "</pre>"@ + tail),
    ensures
        html_step(st, body + "</pre>"@ + tail) == (
            PassView { in_html_block: false, ..st },
            body + tail,
        ),
{
    lemma_close_tag();
    text::lemma_replace_behind(body, "</pre>"@, tail, seq![]);
    assert(body + Seq::<char>::empty() + tail =~= body + tail);
}

/// An event that neither begins nor ends a heading, belongs neither to a code block nor to a link or
/// an image, and is no markup.
pub open spec fn is_plain(event: EventView) -> bool {
    (is_kept(event) || event is Text) && !headings::is_heading_start(event)
        && !headings::is_heading_end(event)
}

/// Plain events come through the pass as they are.
pub proof fn lemma_plain_pass<'a>(page: PageView, events: Seq<EventView<'a>>)
    requires
        forall|i: int| 0 <= i < events.len() ==> is_plain(#[trigger] events[i]),
    ensures
        pass(page, events) == Some((first_state(), events)),
    decreases events.len(),
{
    if events.len() > 0 {
        let rest = events.drop_last();
        assert forall|i: int| 0 <= i < rest.len() implies is_plain(#[trigger] rest[i]) by {
            assert(rest[i] == events[i]);
        }
        lemma_plain_pass(page, rest);
        assert(is_plain(events[events.len() - 1]));
        assert(rest.push(events.last()) =~= events);
    }
}

/// If no link is bad and no block begins or ends within an image, the pass leaves the depth in
/// images as it is.
pub proof fn lemma_pass_keeps_depth<'a>(page: PageView, events: Seq<EventView<'a>>)
    requires
        last_error(page, events) is None,
        cmark::blocks_outside_images(events),
    ensures
        pass(page, events) matches Some((st, out)) ==> forall|i: int|
            0 <= i <= events.len() ==> cmark::image_depth(#[trigger] out.take(i))
                == cmark::image_depth(events.take(i)),
{
    if let Some((st, out)) = pass(page, events) {
        lemma_pass_keeps(page, events);
        lemma_pass_error(page, events);
        assert forall|i: int| 0 <= i < events.len() implies cmark::depth_behind(
            cmark::image_depth(events.take(i)),
            #[trigger] events[i],
        ) == cmark::depth_behind(cmark::image_depth(events.take(i)), out[i]) by {
            lemma_pass_at(page, events, i);
        }
        cmark::lemma_same_depth(events, out);
    }
}

/// Each event of the output is what one step makes of the event in its place.
pub proof fn lemma_pass_at<'a>(page: PageView, events: Seq<EventView<'a>>, i: int)
    requires
        pass(page, events) is Some,
        0 <= i < events.len(),
    ensures
        exists|before: PassView|
            (#[trigger] step(page, before, events[i])) matches Some((_, e)) && e == (pass(
                page,
                events,
            )->0).1[i],
    decreases events.len(),
{
    let rest = events.drop_last();
    let (st, out) = pass(page, events)->0;
    let (st0, out0) = pass(page, rest)->0;
    lemma_pass_keeps(page, rest);
    if i < rest.len() {
        lemma_pass_at(page, rest, i);
        assert(rest[i] == events[i]);
        assert(out[i] == out0[i]);
    } else {
        assert(step(page, st0, events[i]) == Some((st, out[i])));
    }
}

} // verus!
