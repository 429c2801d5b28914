//! Pages: from their Markdown to their HTML.

use crate::cmark::{EventView, LinkKind, MdEvent, MdTag, TagView};
use crate::context::{InsertAnchor, PageView, RenderContext};
use crate::error::{Error, ErrorView};
use crate::headings::{Heading, HeadingRef, RefView};
use crate::laws::pages;
use crate::links::{InternalLinks, ResolvedLink, ResolvedView};
use crate::transform::{Pass, PassView, CONTINUE_READING};
use crate::{cmark, context, headings, links, syntaxes, text, transform};
use vstd::prelude::*;

verus! {

// ---------------------------------------------------------------------------------------------
// Rendered pages

/// A rendered page.
#[derive(Debug)]
pub struct Rendered {
    pub body: String,
    /// The number of bytes of the body that are its summary.
    pub summary_len: Option<usize>,
    pub toc: Vec<Heading>,
    /// The anchors on other pages that links need: the path of the source of the page, and the
    /// anchor.
    pub internal_links_with_anchors: Vec<(String, String)>,
    pub external_links: Vec<String>,
}

/// What a `Rendered` holds.
pub struct RenderedView {
    pub body: Seq<char>,
    pub summary_len: Option<int>,
    pub toc: Seq<Heading>,
    pub internal_links_with_anchors: Seq<(Seq<char>, Seq<char>)>,
    pub external_links: Seq<Seq<char>>,
}

impl View for Rendered {
    type V = RenderedView;

    open spec fn view(&self) -> RenderedView {
        RenderedView {
            body: self.body@,
            summary_len: match self.summary_len {
                Some(n) => Some(n as int),
                None => None,
            },
            toc: self.toc@,
            internal_links_with_anchors: links::pair_texts(self.internal_links_with_anchors@),
            external_links: text::texts(self.external_links@),
        }
    }
}

/// What the outcome of a rendering holds.
pub open spec fn outcome_view(r: Result<Rendered, Error>) -> Result<RenderedView, ErrorView> {
    match r {
        Ok(page) => Ok(page@),
        Err(e) => Err(e@),
    }
}

/// The number of bytes before the place where reading continues.
pub open spec fn summary_len(has_summary: bool, body: Seq<char>) -> Option<int> {
    if has_summary {
        match text::find(body, CONTINUE_READING@) {
            Some(i) => Some(vstd::utf8::encode_utf8(body.take(i)).len() as int),
            None => None,
        }
    } else {
        None
    }
}

/// Measures the summary of a body.
pub fn measure_summary(has_summary: bool, body: &str) -> (r: Option<usize>)
    ensures
        match r {
            Some(n) => summary_len(has_summary, body@) == Some(n as int),
            None => summary_len(has_summary, body@) is None,
        },
{
    if !has_summary {
        return None;
    }
    match text::find_text(body, CONTINUE_READING) {
        Some(i) => Some(text::byte_offset(body, i)),
        None => None,
    }
}

// ---------------------------------------------------------------------------------------------
// Links of a page

/// The destination of a link, if it is an internal one.
pub open spec fn internal_destination(event: EventView) -> Seq<Seq<char>> {
    match event {
        EventView::Start(TagView::Link(kind, link, _, _)) => if !(kind is Email)
            && links::is_internal(link) {
            seq![link]
        } else {
            seq![]
        },
        _ => seq![],
    }
}

/// The destinations of the internal links in a list of events.
pub open spec fn internal_destinations(events: Seq<EventView>) -> Seq<Seq<char>>
    decreases events.len(),
{
    if events.len() == 0 {
        seq![]
    } else {
        internal_destinations(events.drop_last()) + internal_destination(events.last())
    }
}

/// Gets the destinations of the internal links in a list of events.
pub fn get_internal_destinations<'a>(events: &Vec<MdEvent<'a>>) -> (r: Vec<String>)
    ensures
        text::texts(r@) == internal_destinations(cmark::views(events@)),
{
    let ghost all = cmark::views(events@);
    let mut out: Vec<String> = Vec::new();
    let mut i: usize = 0;
    assert(all.take(0) =~= seq![]);
    assert(text::texts(out@) =~= seq![]);
    while i < events.len()
        invariant
            i <= events@.len(),
            all == cmark::views(events@),
            text::texts(out@) == internal_destinations(all.take(i as int)),
        decreases events@.len() - i,
    {
        let ghost before = text::texts(out@);
        assert(all.take(i + 1).drop_last() =~= all.take(i as int));
        assert(all.take(i + 1).last() == events@[i as int]@);
        assert(before + seq![] =~= before);
        match &events[i] {
            MdEvent::Start(MdTag::Link(LinkKind::Other(_), link, _, _)) => {
                if links::is_internal_link(link.as_str()) {
                    out.push(link.clone());
                    assert(text::texts(out@) =~= before + seq![link@]);
                }
            },
            _ => {},
        }
        i = i + 1;
    }
    assert(all.take(i as int) =~= all);
    out
}

/// The destination of a link, if it is written in the way of earlier versions.
pub open spec fn old_destination(event: EventView) -> Seq<Seq<char>> {
    match event {
        EventView::Start(TagView::Link(kind, link, _, _)) => if !(kind is Email)
            && links::is_old_internal(link) {
            seq![link]
        } else {
            seq![]
        },
        _ => seq![],
    }
}

/// The destinations of the links in a list of events that are written in the way of earlier
/// versions.
pub open spec fn old_destinations(events: Seq<EventView>) -> Seq<Seq<char>>
    decreases events.len(),
{
    if events.len() == 0 {
        seq![]
    } else {
        old_destinations(events.drop_last()) + old_destination(events.last())
    }
}

/// Gets the destinations of the links in a list of events that are written in the way of earlier
/// versions.
pub fn get_old_destinations<'a>(events: &Vec<MdEvent<'a>>) -> (r: Vec<String>)
    ensures
        text::texts(r@) == old_destinations(cmark::views(events@)),
{
    let ghost all = cmark::views(events@);
    let mut out: Vec<String> = Vec::new();
    let mut i: usize = 0;
    assert(all.take(0) =~= seq![]);
    assert(text::texts(out@) =~= seq![]);
    while i < events.len()
        invariant
            i <= events@.len(),
            all == cmark::views(events@),
            text::texts(out@) == old_destinations(all.take(i as int)),
        decreases events@.len() - i,
    {
        let ghost before = text::texts(out@);
        assert(all.take(i + 1).drop_last() =~= all.take(i as int));
        assert(all.take(i + 1).last() == events@[i as int]@);
        assert(before + seq![] =~= before);
        match &events[i] {
            MdEvent::Start(MdTag::Link(LinkKind::Other(_), link, _, _)) => {
                if links::is_old_internal_link(link.as_str()) {
                    out.push(link.clone());
                    assert(text::texts(out@) =~= before + seq![link@]);
                }
            },
            _ => {},
        }
        i = i + 1;
    }
    assert(all.take(i as int) =~= all);
    out
}

/// The links of a page to other pages of the site that are written in the way of earlier versions.
pub fn old_style_links(content: &str) -> (r: Vec<String>)
    ensures
        text::texts(r@) == old_destinations(cmark::page_events(content@)),
{
    let events = cmark::parse_page(content);
    get_old_destinations(&events)
}

// ---------------------------------------------------------------------------------------------
// Drafts: pages whose headings have no ids yet

/// A page whose headings have no ids yet.
pub struct Draft<'a> {
    pub state: Pass,
    pub events: Vec<MdEvent<'a>>,
    pub refs: Vec<HeadingRef>,
    /// The ids that the page gives.
    pub manual_ids: Vec<String>,
    pub titles: Vec<String>,
}

/// What a `Draft` holds.
pub struct DraftView<'a> {
    pub state: PassView,
    pub events: Seq<EventView<'a>>,
    pub refs: Seq<RefView>,
    pub manual_ids: Seq<Seq<char>>,
    pub titles: Seq<Seq<char>>,
}

impl<'a> View for Draft<'a> {
    type V = DraftView<'a>;

    open spec fn view(&self) -> DraftView<'a> {
        DraftView {
            state: self.state@,
            events: cmark::views(self.events@),
            refs: headings::ref_views(self.refs@),
            manual_ids: text::texts(self.manual_ids@),
            titles: text::texts(self.titles@),
        }
    }
}

impl<'a> Draft<'a> {
    /// The headings stand in the events one after another, and each has a title.
    pub open spec fn wf(&self) -> bool {
        &&& headings_in_place(self@)
        &&& self.titles@.len() == self.refs@.len()
    }
}

/// The headings of a draft stand in its events one after another.
pub open spec fn headings_in_place<'a>(draft: DraftView<'a>) -> bool {
    &&& headings::refs_fit(draft.refs, draft.events.len())
    &&& headings::refs_in_order(draft.refs)
    &&& forall|k: int|
        0 <= k < draft.refs.len() ==> headings::is_heading_start(
            draft.events[(#[trigger] draft.refs[k]).start_idx],
        ) && headings::is_heading_end(draft.events[draft.refs[k].end_idx])
}

/// The draft of a page: its events in their final form, and its headings with the ids that the page
/// gives them. `None` if an event has no rendering or a heading is not closed.
pub open spec fn draft<'a>(page: PageView, events: Seq<EventView<'a>>) -> Option<DraftView<'a>> {
    match transform::pass(page, events) {
        None => None,
        Some((state, out)) => if headings::headings_closed(out) {
            let ids = headings::manual_ids(out, headings::heading_refs(out));
            Some(
                DraftView {
                    state,
                    events: ids.events,
                    refs: ids.refs,
                    manual_ids: ids.ids,
                    titles: headings::heading_titles(ids.events, ids.refs),
                },
            )
        } else {
            None
        },
    }
}

/// Drafts a page from its events.
pub fn draft_page<'a>(
    events: Vec<MdEvent<'a>>,
    context: &RenderContext,
    links: &InternalLinks,
) -> (r: Option<Draft<'a>>)
    requires
        syntaxes::config_is_sound(*context.config),
    ensures
        match r {
            Some(d) => draft(context::page_view(context, links), cmark::views(events@)) == Some(d@)
                && d.wf(),
            None => draft(context::page_view(context, links), cmark::views(events@)) is None,
        },
{
    let ghost page = context::page_view(context, links);
    let ghost all = cmark::views(events@);
    let (state, out) = match transform::transform(events, context, links) {
        Some(r) => r,
        None => {
            return None;
        },
    };
    if !headings::check_headings(&out) {
        return None;
    }
    let mut out = out;
    let mut refs = headings::get_heading_refs(&out);
    proof {
        let all = cmark::views(out@);
        headings::lemma_heading_refs(all);
        assert forall|k: int| 0 <= k < headings::heading_refs(all).len() implies 0 <= (
        #[trigger] headings::heading_refs(all)[k]).start_idx < headings::heading_refs(
            all,
        )[k].end_idx < out@.len() by {
            assert(headings::ref_in_place(all, headings::heading_refs(all)[k]));
        }
    }
    let manual_ids = headings::take_manual_ids(&mut out, &mut refs);
    let titles = headings::get_titles(&out, &refs);
    assert(text::texts(titles@).len() == refs@.len());
    let draft = Draft { state, events: out, refs, manual_ids, titles };
    proof {
        lemma_draft(page, all);
        assert(draft@.events == cmark::views(out@));
    }
    Some(draft)
}

// ---------------------------------------------------------------------------------------------
// Pages from their drafts

/// The events of a page whose headings have these ids and, unless anchor links are off, these anchor
/// links.
pub open spec fn final_events<'a>(
    draft: DraftView<'a>,
    insert: InsertAnchor,
    ids: Seq<Seq<char>>,
    anchor_links: Seq<Seq<char>>,
) -> Seq<EventView<'a>> {
    let events = headings::tagged(draft.events, draft.refs, ids);
    if insert is Never {
        events
    } else {
        headings::with_anchors(events, insert, draft.refs, anchor_links)
    }
}

/// The HTML of a page whose headings have these ids and, unless anchor links are off, these anchor
/// links.
pub open spec fn page_body<'a>(
    draft: DraftView<'a>,
    insert: InsertAnchor,
    ids: Seq<Seq<char>>,
    anchor_links: Seq<Seq<char>>,
) -> Seq<char> {
    cmark::html_of(final_events(draft, insert, ids, anchor_links))
}

/// The HTML of a page shows the tag that opens each heading, each anchor link, and all markup of the
/// draft that does not stand in an image.
pub open spec fn all_shown<'a>(
    body: Seq<char>,
    draft: DraftView<'a>,
    insert: InsertAnchor,
    ids: Seq<Seq<char>>,
    anchor_links: Seq<Seq<char>>,
) -> bool {
    &&& forall|k: int|
        0 <= k < ids.len() ==> text::contains(
            body,
            headings::heading_html((#[trigger] draft.refs[k]).level, ids[k]),
        )
    &&& !(insert is Never) ==> forall|k: int|
        0 <= k < anchor_links.len() ==> text::contains(body, #[trigger] anchor_links[k])
    &&& cmark::markup_shown(body, draft.events)
}

/// The headings of a draft leave the depth in images as it is when they get their tags.
proof fn lemma_tagged_depth<'a>(draft: DraftView<'a>, ids: Seq<Seq<char>>)
    requires
        headings_in_place(draft),
        ids.len() <= draft.refs.len(),
        cmark::blocks_outside_images(draft.events),
        cmark::all_open(draft.events),
    ensures
        ({
            let events = headings::tagged(draft.events, draft.refs, ids);
            forall|i: int|
                0 <= i <= draft.events.len() ==> cmark::image_depth(#[trigger] events.take(i))
                    == cmark::image_depth(draft.events.take(i))
        }),
{
    let events = headings::tagged(draft.events, draft.refs, ids);
    headings::lemma_tagged(draft.events, draft.refs, ids);
    assert forall|i: int| 0 <= i < draft.events.len() implies cmark::depth_behind(
        cmark::image_depth(draft.events.take(i)),
        #[trigger] draft.events[i],
    ) == cmark::depth_behind(cmark::image_depth(draft.events.take(i)), events[i]) by {
        if exists|k: int| 0 <= k < ids.len() && (#[trigger] draft.refs[k]).start_idx == i {
            let k = choose|k: int| 0 <= k < ids.len() && (#[trigger] draft.refs[k]).start_idx == i;
            assert(headings::is_heading_start(draft.events[draft.refs[k].start_idx]));
            assert(cmark::is_block_event(draft.events[i]));
            assert(events[draft.refs[k].start_idx] is Html);
        } else {
            assert(events[i] == draft.events[i]);
        }
    }
    cmark::lemma_same_depth(draft.events, events);
}

/// If all markup of the final events stands in the HTML, so does what a draft and its headings have.
proof fn lemma_all_shown<'a>(
    body: Seq<char>,
    draft: DraftView<'a>,
    insert: InsertAnchor,
    ids: Seq<Seq<char>>,
    anchor_links: Seq<Seq<char>>,
)
    requires
        headings_in_place(draft),
        ids.len() <= draft.refs.len(),
        anchor_links.len() <= draft.refs.len(),
        cmark::blocks_outside_images(draft.events),
        cmark::all_open(draft.events),
        cmark::markup_shown(body, final_events(draft, insert, ids, anchor_links)),
    ensures
        all_shown(body, draft, insert, ids, anchor_links),
{
    let events = headings::tagged(draft.events, draft.refs, ids);
    let out = final_events(draft, insert, ids, anchor_links);
    headings::lemma_tagged(draft.events, draft.refs, ids);
    lemma_tagged_depth(draft, ids);
    assert forall|i: int| 0 <= i < events.len() && #[trigger] cmark::is_open_markup(
        events,
        i,
    ) implies text::contains(body, cmark::markup_of(events[i])->0) by {
        if insert is Never {
            assert(cmark::is_open_markup(out, i));
        } else {
            headings::lemma_with_anchors(events, insert, draft.refs, anchor_links);
            let at = i + headings::anchors_before(insert, draft.refs, anchor_links.len(), i);
            lemma_anchors_before_bound(insert, draft.refs, anchor_links.len(), i);
            assert(out[at] == events[i]);
            assert(cmark::image_depth(out.take(at)) == cmark::image_depth(events.take(i)));
            assert(cmark::is_open_markup(out, at));
        }
    }
    assert forall|k: int| 0 <= k < ids.len() implies text::contains(
        body,
        headings::heading_html((#[trigger] draft.refs[k]).level, ids[k]),
    ) by {
        let at = draft.refs[k].start_idx;
        assert(headings::is_heading_start(draft.events[at]));
        assert(cmark::is_block_event(draft.events[at]));
        assert(cmark::image_depth(events.take(at)) == cmark::image_depth(draft.events.take(at)));
        assert(events[at] == EventView::<'a>::Html(
            headings::heading_html(draft.refs[k].level, ids[k]),
        ));
        assert(cmark::is_open_markup(events, at));
    }
    if !(insert is Never) {
        headings::lemma_with_anchors(events, insert, draft.refs, anchor_links);
        assert forall|k: int| 0 <= k < anchor_links.len() implies text::contains(
            body,
            #[trigger] anchor_links[k],
        ) by {
            let r = draft.refs[k];
            let place = headings::anchor_position(insert, r);
            assert(r.start_idx < r.end_idx < events.len());
            assert(headings::is_heading_start(draft.events[r.start_idx]));
            assert(cmark::is_block_event(draft.events[r.start_idx]));
            assert(cmark::is_block_event(draft.events[r.end_idx]));
            assert(cmark::image_depth(draft.events.take(place)) == 0) by {
                if place == r.start_idx + 1 {
                    let before = draft.events.take(place);
                    assert(before.drop_last() =~= draft.events.take(r.start_idx));
                    assert(before.last() == draft.events[r.start_idx]);
                }
            }
            assert(cmark::image_depth(events.take(place)) == 0);
            assert(out[place + k] == EventView::<'a>::Html(anchor_links[k]));
            assert(cmark::is_open_markup(out, place + k));
        }
    }
    assert forall|i: int| 0 <= i < draft.events.len() && #[trigger] cmark::is_open_markup(
        draft.events,
        i,
    ) implies text::contains(body, cmark::markup_of(draft.events[i])->0) by {
        assert forall|k: int| 0 <= k < ids.len() implies (#[trigger] draft.refs[k]).start_idx
            != i by {
            assert(headings::is_heading_start(draft.events[draft.refs[k].start_idx]));
        }
        assert(events[i] == draft.events[i]);
        assert(cmark::image_depth(events.take(i)) == cmark::image_depth(draft.events.take(i)));
        assert(cmark::is_open_markup(events, i));
    }
}

/// No more anchor links go before an event than there are.
proof fn lemma_anchors_before_bound(insert: InsertAnchor, refs: Seq<RefView>, n: nat, i: int)
    ensures
        headings::anchors_before(insert, refs, n, i) <= n,
    decreases n,
{
    if n > 0 {
        lemma_anchors_before_bound(insert, refs, (n - 1) as nat, i);
    }
}

/// The page that a draft becomes, or the last error in it.
pub open spec fn finished<'a>(
    draft: DraftView<'a>,
    insert: InsertAnchor,
    ids: Seq<Seq<char>>,
    anchor_links: Seq<Seq<char>>,
    toc: Seq<Heading>,
) -> Result<RenderedView, ErrorView> {
    match draft.state.error {
        Some(e) => Err(e),
        None => {
            let body = page_body(draft, insert, ids, anchor_links);
            Ok(
                RenderedView {
                    body,
                    summary_len: summary_len(draft.state.has_summary, body),
                    toc,
                    internal_links_with_anchors: draft.state.internal_links_with_anchors,
                    external_links: draft.state.external_links,
                },
            )
        },
    }
}

/// Turns a draft into the page: the headings get their ids and, unless anchor links are off, their
/// anchor links. All of them, and all markup that does not stand in an image, stand in the page as
/// they are.
pub fn finish_page<'a>(
    draft: Draft<'a>,
    insert: InsertAnchor,
    ids: &Vec<String>,
    anchor_links: Vec<String>,
    toc: Vec<Heading>,
) -> (r: Result<Rendered, Error>)
    requires
        draft.wf(),
        ids@.len() <= draft.refs@.len(),
        anchor_links@.len() <= draft.refs@.len(),
    ensures
        outcome_view(r) == finished(
            draft@,
            insert,
            text::texts(ids@),
            text::texts(anchor_links@),
            toc@,
        ),
        r matches Ok(page) ==> cmark::blocks_outside_images(draft@.events) && cmark::all_open(
            draft@.events,
        ) ==> all_shown(
            page.body@,
            draft@,
            insert,
            text::texts(ids@),
            text::texts(anchor_links@),
        ),
{
    let ghost view = draft@;
    let ghost links = text::texts(anchor_links@);
    let Draft { state, events, refs, manual_ids: _, titles: _ } = draft;
    let mut events = events;
    headings::tag_headings(&mut events, &refs, ids);
    if insert != InsertAnchor::Never {
        headings::insert_anchors(&mut events, insert, &refs, anchor_links);
    }
    let ghost written = events@;
    let body = cmark::render_events(events);
    proof {
        let names = text::texts(ids@);
        let out = final_events(view, insert, names, links);
        assert(cmark::views(written) == out);
        if cmark::blocks_outside_images(view.events) && cmark::all_open(view.events) {
            lemma_all_shown(body@, view, insert, names, links);
        }
    }
    match state.error {
        Some(e) => Err(e),
        None => {
            let summary_len = measure_summary(state.has_summary, body.as_str());
            Ok(
                Rendered {
                    body,
                    summary_len,
                    toc,
                    internal_links_with_anchors: state.internal_links_with_anchors,
                    external_links: state.external_links,
                },
            )
        },
    }
}

// ---------------------------------------------------------------------------------------------
// What the site answers

/// What the site around a page answers while the page is rendered.
pub struct Answers {
    /// Where each internal link of the page leads.
    pub targets: Seq<Option<ResolvedView>>,
    /// The slug of each title. That of a heading with an id of its own is not asked for.
    pub slugs: Seq<Seq<char>>,
    /// The anchor links, up to the first that failed.
    pub anchor_links: Seq<Seq<char>>,
    /// Why the first anchor link that failed did so.
    pub anchor_failure: Option<Seq<char>>,
    /// The table of contents.
    pub toc: Seq<Heading>,
}

/// What is known of where a link leads.
pub open spec fn target_view(target: Option<ResolvedLink>) -> Option<ResolvedView> {
    match target {
        Some(t) => Some(t@),
        None => None,
    }
}

/// `resolve` can say of this link that it leads there.
pub open spec fn resolves_to<R: Fn(&str) -> Option<ResolvedLink>>(
    resolve: R,
    link: Seq<char>,
    target: Option<ResolvedView>,
) -> bool {
    exists|l: &str, t: Option<ResolvedLink>|
        l@ == link && target_view(t) == target && #[trigger] call_ensures(resolve, (l,), t)
}

/// `slugify` can make this slug of this title.
pub open spec fn slugifies_to<S: Fn(&str) -> String>(
    slugify: S,
    title: Seq<char>,
    slug: Seq<char>,
) -> bool {
    exists|t: &str, s: String| t@ == title && s@ == slug && #[trigger] call_ensures(slugify, (t,), s)
}

/// `render_anchor` can make this anchor link of these values, or fail for this reason.
pub open spec fn renders_to<T: Fn(tera::Context) -> Result<String, String>>(
    render_anchor: T,
    id: Seq<char>,
    level: u32,
    link: Result<Seq<char>, Seq<char>>,
) -> bool {
    exists|c: tera::Context, l: Result<String, String>|
        headings::context_values(c) == headings::anchor_values(id, level) && link == (match l {
            Ok(html) => Ok(html@),
            Err(reason) => Err(reason@),
        }) && #[trigger] call_ensures(render_anchor, (c,), l)
}

/// `nest` can make this table of contents of the headings of a page.
pub open spec fn nests_to<N: Fn(Vec<Heading>) -> Vec<Heading>>(
    nest: N,
    draft: DraftView,
    ids: Seq<Seq<char>>,
    page: Seq<char>,
    toc: Seq<Heading>,
) -> bool {
    exists|h: Vec<Heading>, t: Vec<Heading>|
        headings::are_headings(h@, draft.refs, ids, page, draft.titles) && t@ == toc
            && #[trigger] call_ensures(nest, (h,), t)
}

/// The internal links of a page that lead somewhere, and where.
pub open spec fn link_table(
    destinations: Seq<Seq<char>>,
    targets: Seq<Option<ResolvedView>>,
) -> Seq<(Seq<char>, ResolvedView)>
    decreases destinations.len(),
{
    if destinations.len() == 0 {
        seq![]
    } else {
        let before = link_table(destinations.drop_last(), targets);
        match targets[destinations.len() - 1] {
            Some(target) => before.push((destinations.last(), target)),
            None => before,
        }
    }
}

/// What rendering needs to know of a page, by what the site answers.
pub open spec fn answered_page(
    content: Seq<char>,
    context: &RenderContext,
    answers: Answers,
) -> PageView {
    PageView {
        config: *context.config,
        permalink: context.current_page_permalink@,
        insert_anchor: context.insert_anchor,
        links: link_table(
            internal_destinations(cmark::page_events(content)),
            answers.targets,
        ),
    }
}

/// The draft of a page by what the site answers.
pub open spec fn answered_draft<'a>(
    content: Seq<char>,
    context: &RenderContext,
    answers: Answers,
) -> Option<DraftView<'a>> {
    draft(answered_page(content, context, answers), cmark::page_events(content))
}

/// What rendering a page comes to by what the site answers.
pub open spec fn outcome(content: Seq<char>, context: &RenderContext, answers: Answers) -> Result<
    RenderedView,
    ErrorView,
> {
    match answered_draft(content, context, answers) {
        None => Err(ErrorView::Unrenderable),
        Some(d) => {
            let ids = headings::heading_ids(d.manual_ids, d.refs, answers.slugs);
            match answers.anchor_failure {
                Some(reason) => Err(ErrorView::AnchorTemplate(reason)),
                None => if ids.len() < d.refs.len() {
                    Err(ErrorView::Unrenderable)
                } else {
                    finished(d, context.insert_anchor, ids, answers.anchor_links, answers.toc)
                },
            }
        },
    }
}

/// The anchor links are those of the headings with these ids: none if they are off, and otherwise
/// one for each heading, up to the first that fails.
pub open spec fn anchors_answered<T: Fn(tera::Context) -> Result<String, String>>(
    render_anchor: T,
    insert: InsertAnchor,
    refs: Seq<RefView>,
    ids: Seq<Seq<char>>,
    anchor_links: Seq<Seq<char>>,
    anchor_failure: Option<Seq<char>>,
) -> bool {
    let n = anchor_links.len() as int;
    if insert is Never {
        n == 0 && anchor_failure is None
    } else {
        &&& n <= ids.len()
        &&& forall|k: int|
            0 <= k < n ==> renders_to(
                render_anchor,
                ids[k],
                refs[k].level,
                Ok(#[trigger] anchor_links[k]),
            )
        &&& match anchor_failure {
            None => n == ids.len(),
            Some(reason) => n < ids.len() && renders_to(
                render_anchor,
                ids[n],
                refs[n].level,
                Err(reason),
            ),
        }
    }
}

/// The slugs are those of the titles of the headings that have no id of their own.
pub open spec fn slugs_answered<S: Fn(&str) -> String>(
    slugify: S,
    refs: Seq<RefView>,
    titles: Seq<Seq<char>>,
    slugs: Seq<Seq<char>>,
) -> bool {
    &&& slugs.len() == refs.len()
    &&& forall|k: int|
        0 <= k < refs.len() && (#[trigger] refs[k]).id is None ==> slugifies_to(
            slugify,
            titles[k],
            slugs[k],
        )
}

/// The targets are where these links lead.
pub open spec fn targets_answered<R: Fn(&str) -> Option<ResolvedLink>>(
    resolve: R,
    destinations: Seq<Seq<char>>,
    targets: Seq<Option<ResolvedView>>,
) -> bool {
    &&& targets.len() == destinations.len()
    &&& forall|k: int|
        0 <= k < destinations.len() ==> resolves_to(
            resolve,
            #[trigger] destinations[k],
            targets[k],
        )
}

/// Finds where links lead.
fn resolve_links<R: Fn(&str) -> Option<ResolvedLink>>(
    destinations: Vec<String>,
    resolve: &R,
) -> (r: (InternalLinks, Ghost<Seq<Option<ResolvedView>>>))
    requires
        forall|l: &str| call_requires(*resolve, (l,)),
    ensures
        targets_answered(*resolve, text::texts(destinations@), r.1@),
        r.0@ == link_table(text::texts(destinations@), r.1@),
{
    let ghost all = text::texts(destinations@);
    let ghost mut targets: Seq<Option<ResolvedView>> = seq![];
    let mut links = InternalLinks { entries: Vec::new() };
    let mut k: usize = 0;
    assert(all.take(0) =~= seq![]);
    assert(links@ =~= seq![]);
    while k < destinations.len()
        invariant
            k <= destinations@.len(),
            all == text::texts(destinations@),
            forall|l: &str| call_requires(*resolve, (l,)),
            targets.len() == k,
            forall|j: int| 0 <= j < k ==> resolves_to(*resolve, #[trigger] all[j], targets[j]),
            links@ == link_table(all.take(k as int), targets),
        decreases destinations@.len() - k,
    {
        let ghost before = links@;
        let ghost targets_before = targets;
        let target = resolve(destinations[k].as_str());
        proof {
            assert(resolves_to(*resolve, all[k as int], target_view(target)));
            targets = targets.push(target_view(target));
            assert(all.take(k + 1).drop_last() =~= all.take(k as int));
            lemma_link_table(all.take(k as int), targets_before, targets);
        }
        if let Some(t) = target {
            let link = destinations[k].clone();
            links.entries.push((link, t));
            assert(links@ =~= before.push((link@, t@)));
        }
        k = k + 1;
    }
    assert(all.take(k as int) =~= all);
    (links, Ghost(targets))
}

/// Only the targets of the links themselves matter.
proof fn lemma_link_table(
    destinations: Seq<Seq<char>>,
    a: Seq<Option<ResolvedView>>,
    b: Seq<Option<ResolvedView>>,
)
    requires
        forall|k: int| 0 <= k < destinations.len() ==> a[k] == b[k],
    ensures
        link_table(destinations, a) == link_table(destinations, b),
    decreases destinations.len(),
{
    if destinations.len() > 0 {
        lemma_link_table(destinations.drop_last(), a, b);
    }
}

/// Makes the slugs of the headings that have no id of their own.
fn make_slugs<S: Fn(&str) -> String>(
    refs: &Vec<HeadingRef>,
    titles: &Vec<String>,
    slugify: &S,
) -> (r: Vec<String>)
    requires
        titles@.len() == refs@.len(),
        forall|t: &str| call_requires(*slugify, (t,)),
    ensures
        slugs_answered(
            *slugify,
            headings::ref_views(refs@),
            text::texts(titles@),
            text::texts(r@),
        ),
{
    let ghost views = headings::ref_views(refs@);
    let mut slugs: Vec<String> = Vec::new();
    let mut k: usize = 0;
    while k < refs.len()
        invariant
            k <= refs@.len(),
            views == headings::ref_views(refs@),
            titles@.len() == refs@.len(),
            forall|t: &str| call_requires(*slugify, (t,)),
            slugs@.len() == k,
            forall|j: int|
                0 <= j < k && (#[trigger] views[j]).id is None ==> slugifies_to(
                    *slugify,
                    text::texts(titles@)[j],
                    text::texts(slugs@)[j],
                ),
        decreases refs@.len() - k,
    {
        let ghost before = slugs@;
        assert(views[k as int] == refs@[k as int]@);
        let slug = match &refs[k].id {
            Some(_) => String::new(),
            None => slugify(titles[k].as_str()),
        };
        assert(views[k as int].id is None ==> slugifies_to(
            *slugify,
            titles@[k as int]@,
            slug@,
        ));
        slugs.push(slug);
        assert forall|j: int| 0 <= j < k + 1 && (#[trigger] views[j]).id is None implies slugifies_to(
            *slugify,
            text::texts(titles@)[j],
            text::texts(slugs@)[j],
        ) by {
            assert(text::texts(slugs@)[j] == slugs@[j]@);
            if j < k {
                assert(text::texts(before)[j] == before[j]@);
            }
        }
        k = k + 1;
    }
    slugs
}

/// Makes the anchor links of the headings with these ids, up to the first that fails. The second
/// part is why that one failed.
fn make_anchors<T: Fn(tera::Context) -> Result<String, String>>(
    insert: InsertAnchor,
    refs: &Vec<HeadingRef>,
    ids: &Vec<String>,
    render_anchor: &T,
) -> (r: (Vec<String>, Option<String>))
    requires
        ids@.len() <= refs@.len(),
        forall|c: tera::Context| call_requires(*render_anchor, (c,)),
    ensures
        anchors_answered(
            *render_anchor,
            insert,
            headings::ref_views(refs@),
            text::texts(ids@),
            text::texts(r.0@),
            text::text_of_option(r.1),
        ),
{
    let ghost views = headings::ref_views(refs@);
    let ghost names = text::texts(ids@);
    let mut anchor_links: Vec<String> = Vec::new();
    if insert == InsertAnchor::Never {
        return (anchor_links, None);
    }
    let mut k: usize = 0;
    while k < ids.len()
        invariant
            k <= ids@.len() <= refs@.len(),
            views == headings::ref_views(refs@),
            names == text::texts(ids@),
            insert != InsertAnchor::Never,
            forall|c: tera::Context| call_requires(*render_anchor, (c,)),
            anchor_links@.len() == k,
            forall|j: int|
                0 <= j < k ==> renders_to(
                    *render_anchor,
                    names[j],
                    views[j].level,
                    Ok(#[trigger] text::texts(anchor_links@)[j]),
                ),
        decreases ids@.len() - k,
    {
        let ghost before = text::texts(anchor_links@);
        assert(views[k as int] == refs@[k as int]@);
        assert(names[k as int] == ids@[k as int]@);
        let values = headings::anchor_context(ids[k].as_str(), refs[k].level);
        match render_anchor(values) {
            Ok(html) => {
                assert(renders_to(
                    *render_anchor,
                    names[k as int],
                    views[k as int].level,
                    Ok(html@),
                ));
                anchor_links.push(html);
                assert(text::texts(anchor_links@) =~= before.push(html@));
            },
            Err(reason) => {
                assert(renders_to(
                    *render_anchor,
                    names[k as int],
                    views[k as int].level,
                    Err(reason@),
                ));
                return (anchor_links, Some(reason));
            },
        }
        k = k + 1;
    }
    (anchor_links, None)
}

/// All the answers come from these functions.
pub open spec fn answered<
    R: Fn(&str) -> Option<ResolvedLink>,
    S: Fn(&str) -> String,
    T: Fn(tera::Context) -> Result<String, String>,
    N: Fn(Vec<Heading>) -> Vec<Heading>,
>(
    content: Seq<char>,
    context: &RenderContext,
    resolve: R,
    slugify: S,
    render_anchor: T,
    nest: N,
    answers: Answers,
) -> bool {
    &&& targets_answered(
        resolve,
        internal_destinations(cmark::page_events(content)),
        answers.targets,
    )
    &&& answered_draft(content, context, answers) matches Some(d) ==> {
        let ids = headings::heading_ids(d.manual_ids, d.refs, answers.slugs);
        &&& slugs_answered(slugify, d.refs, d.titles, answers.slugs)
        &&& anchors_answered(
            render_anchor,
            context.insert_anchor,
            d.refs,
            ids,
            answers.anchor_links,
            answers.anchor_failure,
        )
        &&& outcome(content, context, answers) is Ok ==> nests_to(
            nest,
            d,
            ids,
            context.current_page_permalink@,
            answers.toc,
        )
    }
}

// ---------------------------------------------------------------------------------------------
// Pages

/// A page shows all markup of its draft that does not stand in an image, the tags of all headings
/// and all anchor links.
pub open spec fn page_shows(
    body: Seq<char>,
    content: Seq<char>,
    context: &RenderContext,
    answers: Answers,
) -> bool {
    answered_draft(content, context, answers) matches Some(d) && all_shown(
        body,
        d,
        context.insert_anchor,
        headings::heading_ids(d.manual_ids, d.refs, answers.slugs),
        answers.anchor_links,
    )
}

/// The event at `i` ends the summary, and does not stand in an image.
pub open spec fn ends_open_summary(events: Seq<EventView>, i: int) -> bool {
    transform::ends_summary(events[i]) && cmark::image_depth(events.take(i)) == 0
}

/// Renders a page.
///
/// The site around the page answers four questions: `resolve` says where an internal link leads,
/// `slugify` makes the slug of a title, `render_anchor` renders the template of the anchor links,
/// and `nest` makes the table of contents of the list of headings. Whatever they answer, the
/// outcome is the one that the answers give.
///
/// A page shows all markup that does not stand in an image, the tags of all headings and all anchor
/// links as they are, and if such markup ends its summary, it has one. Markup of its own that neither
/// ends the summary nor belongs to a shortcode stays as it is. Headings and code blocks are taken not
/// to stand in images.
pub fn markdown_to_html<
    R: Fn(&str) -> Option<ResolvedLink>,
    S: Fn(&str) -> String,
    T: Fn(tera::Context) -> Result<String, String>,
    N: Fn(Vec<Heading>) -> Vec<Heading>,
>(
    content: &str,
    context: &RenderContext,
    resolve: R,
    slugify: S,
    render_anchor: T,
    nest: N,
) -> (r: Result<Rendered, Error>)
    requires
        syntaxes::config_is_sound(*context.config),
        forall|l: &str| call_requires(resolve, (l,)),
        forall|t: &str| call_requires(slugify, (t,)),
        forall|c: tera::Context| call_requires(render_anchor, (c,)),
        forall|h: Vec<Heading>| call_requires(nest, (h,)),
    ensures
        exists|answers: Answers|
            #[trigger] answered(
                content@,
                context,
                resolve,
                slugify,
                render_anchor,
                nest,
                answers,
            ) && outcome_view(r) == outcome(content@, context, answers) && (r matches Ok(page)
                ==> cmark::blocks_outside_images(cmark::page_events(content@)) ==> page_shows(
                page.body@,
                content@,
                context,
                answers,
            )),
        r matches Ok(page) ==> cmark::blocks_outside_images(cmark::page_events(content@)) ==> (
        exists|i: int|
            0 <= i < cmark::page_events(content@).len() && #[trigger] ends_open_summary(
                cmark::page_events(content@),
                i,
            )) ==> page.summary_len is Some,
        r matches Ok(page) ==> cmark::blocks_outside_images(cmark::page_events(content@))
            ==> pages::own_markup_shown(page.body@, cmark::page_events(content@)),
{
    let ghost mut answers = Answers {
        targets: seq![],
        slugs: seq![],
        anchor_links: seq![],
        anchor_failure: None,
        toc: seq![],
    };
    let events = cmark::parse_page(content);
    let destinations = get_internal_destinations(&events);
    let (links, Ghost(targets)) = resolve_links(destinations, &resolve);
    proof {
        answers.targets = targets;
    }
    let ghost page = context::page_view(context, &links);
    let ghost all = cmark::views(events@);
    assert(answered_draft(content@, context, answers) == draft(page, cmark::views(events@)));
    let draft = match draft_page(events, context, &links) {
        Some(draft) => draft,
        None => {
            assert(answered(
                content@,
                context,
                resolve,
                slugify,
                render_anchor,
                nest,
                answers,
            ));
            return Err(Error::Unrenderable);
        },
    };
    let slugs = make_slugs(&draft.refs, &draft.titles, &slugify);
    let ids = headings::assign_ids(&draft.manual_ids, &draft.refs, &slugs);
    proof {
        answers.slugs = text::texts(slugs@);
        headings::lemma_ids_len(draft@.manual_ids, draft@.refs, answers.slugs);
    }
    let (anchor_links, failure) = make_anchors(
        context.insert_anchor,
        &draft.refs,
        &ids,
        &render_anchor,
    );
    proof {
        answers.anchor_links = text::texts(anchor_links@);
        answers.anchor_failure = text::text_of_option(failure);
    }
    if let Some(reason) = failure {
        assert(answered(content@, context, resolve, slugify, render_anchor, nest, answers));
        return Err(Error::AnchorTemplate(reason));
    }
    if ids.len() < draft.refs.len() {
        assert(answered(content@, context, resolve, slugify, render_anchor, nest, answers));
        return Err(Error::Unrenderable);
    }
    let toc = match &draft.state.error {
        Some(_) => Vec::new(),
        None => {
            let list = headings::list_headings(
                &draft.refs,
                &ids,
                context.current_page_permalink,
                &draft.titles,
            );
            let toc = nest(list);
            assert(nests_to(
                nest,
                draft@,
                text::texts(ids@),
                context.current_page_permalink@,
                toc@,
            ));
            toc
        },
    };
    proof {
        answers.toc = toc@;
        assert(answered(content@, context, resolve, slugify, render_anchor, nest, answers));
    }
    let ghost view = draft@;
    let r = finish_page(draft, context.insert_anchor, &ids, anchor_links, toc);
    proof {
        if cmark::blocks_outside_images(all) && r is Ok {
            lemma_draft(page, all);
            transform::lemma_pass_error(page, all);
            let rendered = r->Ok_0;
            assert(page_shows(rendered.body@, content@, context, answers));
            pages::lemma_own_markup_shown(page, all, rendered.body@);
            if exists|i: int| 0 <= i < all.len() && #[trigger] ends_open_summary(all, i) {
                let i = choose|i: int| 0 <= i < all.len() && #[trigger] ends_open_summary(all, i);
                assert(transform::ends_summary(all[i]));
                assert(cmark::image_depth(view.events.take(i)) == 0);
                assert(cmark::is_open_markup(view.events, i));
                assert(text::contains(rendered.body@, CONTINUE_READING@));
                lemma_summary_len(true, rendered.body@);
            }
        }
    }
    r
}

// ---------------------------------------------------------------------------------------------
// Laws of pages

/// The summary ends where the first mark of the place where reading continues begins.
pub proof fn lemma_summary_len(has_summary: bool, body: Seq<char>)
    ensures
        !has_summary ==> summary_len(has_summary, body) is None,
        has_summary ==> (summary_len(has_summary, body) is Some <==> text::contains(
            body,
            CONTINUE_READING@,
        )),
        summary_len(has_summary, body) matches Some(n) ==> exists|i: int|
            {
                &&& #[trigger] text::occurs_at(body, CONTINUE_READING@, i)
                &&& n == vstd::utf8::encode_utf8(body.take(i)).len()
                &&& forall|j: int| 0 <= j < i ==> !text::occurs_at(body, CONTINUE_READING@, j)
            },
{
    text::lemma_find_contains(body, CONTINUE_READING@);
    text::lemma_find_from(body, CONTINUE_READING@, 0);
    if let Some(i) = text::find(body, CONTINUE_READING@) {
        assert(text::occurs_at(body, CONTINUE_READING@, i));
    }
}

/// Every internal link is listed.
pub proof fn lemma_destination_listed<'a>(events: Seq<EventView<'a>>, i: int)
    requires
        0 <= i < events.len(),
    ensures
        forall|l: Seq<char>| #[trigger]
            internal_destination(events[i]).contains(l) ==> internal_destinations(events).contains(
                l,
            ),
    decreases events.len(),
{
    let rest = internal_destinations(events.drop_last());
    let last = internal_destination(events.last());
    assert forall|l: Seq<char>| #[trigger] internal_destination(events[i]).contains(
        l,
    ) implies internal_destinations(events).contains(l) by {
        if i < events.len() - 1 {
            lemma_destination_listed(events.drop_last(), i);
            assert(events.drop_last()[i] == events[i]);
            let k = choose|k: int| 0 <= k < rest.len() && rest[k] == l;
            assert((rest + last)[k] == l);
        } else {
            let k = choose|k: int| 0 <= k < last.len() && last[k] == l;
            assert((rest + last)[rest.len() + k] == l);
        }
    }
}

/// A link leads where the site says it does, and nowhere if the site never says where.
pub proof fn lemma_link_table_says(
    destinations: Seq<Seq<char>>,
    targets: Seq<Option<ResolvedView>>,
    link: Seq<char>,
)
    requires
        targets.len() == destinations.len(),
    ensures
        match links::link_target(link_table(destinations, targets), link) {
            Some(target) => exists|k: int|
                0 <= k < destinations.len() && #[trigger] destinations[k] == link && targets[k]
                    == Some(target),
            None => forall|k: int|
                0 <= k < destinations.len() && #[trigger] destinations[k] == link ==> targets[k]
                    is None,
        },
    decreases destinations.len(),
{
    if destinations.len() > 0 {
        let rest = destinations.drop_last();
        let n = destinations.len() - 1;
        let before = link_table(rest, targets);
        lemma_link_table(rest, targets, targets.drop_last());
        lemma_link_table_says(rest, targets.drop_last(), link);
        if let Some(target) = targets[n] {
            links::lemma_link_target_push(before, (destinations[n], target), link);
        }
        match links::link_target(before, link) {
            Some(target) => {
                let k = choose|k: int|
                    0 <= k < rest.len() && #[trigger] rest[k] == link && targets.drop_last()[k]
                        == Some(target);
                assert(destinations[k] == link && targets[k] == Some(target));
            },
            None => {
                assert forall|k: int|
                    0 <= k < n && #[trigger] destinations[k] == link implies targets[k] is None by {
                    assert(rest[k] == link);
                    assert(targets.drop_last()[k] == targets[k]);
                }
            },
        }
    }
}

/// If no link is bad and no block stands in an image, images stand in the draft as in the page.
proof fn lemma_draft_depth<'a>(page: PageView, events: Seq<EventView<'a>>)
    requires
        draft(page, events) is Some,
        transform::last_error(page, events) is None,
        cmark::blocks_outside_images(events),
        cmark::all_open(events),
    ensures
        cmark::blocks_outside_images((draft(page, events)->0).events),
        cmark::all_open((draft(page, events)->0).events),
        forall|i: int|
            0 <= i <= events.len() ==> cmark::image_depth(
                #[trigger] (draft(page, events)->0).events.take(i),
            ) == cmark::image_depth(events.take(i)),
{
    let (state, out) = transform::pass(page, events)->0;
    let last = (draft(page, events)->0).events;
    let refs = headings::heading_refs(out);
    transform::lemma_pass_keeps(page, events);
    transform::lemma_pass_keeps_depth(page, events);
    headings::lemma_heading_refs(out);
    assert forall|k: int| 0 <= k < refs.len() implies 0 <= (#[trigger] refs[k]).start_idx
        < refs[k].end_idx < out.len() && refs[k].id is None by {
        assert(headings::ref_in_place(out, refs[k]));
    }
    headings::lemma_manual_ids(out, refs);
    assert forall|i: int| 0 <= i < out.len() implies cmark::depth_behind(
        cmark::image_depth(out.take(i)),
        #[trigger] out[i],
    ) == cmark::depth_behind(cmark::image_depth(out.take(i)), last[i]) by {
        assert(last[i] == out[i] || (out[i] is Text && last[i] is Text));
    }
    cmark::lemma_same_depth(out, last);
    assert forall|i: int| 0 <= i < events.len() implies {
        &&& cmark::is_block_event(#[trigger] last[i]) ==> last[i] == events[i]
        &&& last[i] matches EventView::Start(tag) ==> cmark::is_open(tag)
    } by {
        assert(last[i] == out[i] || (out[i] is Text && last[i] is Text));
        transform::lemma_pass_at(page, events, i);
        assert(events[i] matches EventView::Start(tag) ==> cmark::is_open(tag));
    }
    assert forall|i: int| 0 <= i < last.len() && cmark::is_block_event(
        #[trigger] last[i],
    ) implies cmark::image_depth(last.take(i)) == 0 by {
        assert(last[i] == events[i]);
        assert(cmark::image_depth(out.take(i)) == cmark::image_depth(events.take(i)));
    }
    assert forall|i: int| 0 <= i <= events.len() implies cmark::image_depth(#[trigger] last.take(i))
        == cmark::image_depth(events.take(i)) by {
        assert(cmark::image_depth(out.take(i)) == cmark::image_depth(events.take(i)));
    }
}

/// The headings of a draft stand in it one after another, and the ids that the page gives are listed.
/// If no link is bad and no block stands in an image, images stand in the draft as in the page. Where
/// the summary of the page ends, the draft has the place where reading continues.
pub proof fn lemma_draft<'a>(page: PageView, events: Seq<EventView<'a>>)
    ensures
        draft(page, events) is Some <==> transform::pass(page, events) is Some
            && headings::headings_closed(events),
        draft(page, events) matches Some(d) ==> {
            &&& d.events.len() == events.len()
            &&& d.refs.len() == headings::heading_refs(events).len()
            &&& d.titles.len() == d.refs.len()
            &&& d.manual_ids.len() <= d.refs.len()
            &&& headings_in_place(d)
            &&& forall|i: int|
                0 <= i < d.refs.len() ==> ((#[trigger] d.refs[i]).id matches Some(id)
                    ==> d.manual_ids.contains(id))
            &&& d.state == (transform::pass(page, events)->0).0
            &&& transform::last_error(page, events) is None && cmark::blocks_outside_images(events)
                && cmark::all_open(events) ==> {
                &&& cmark::blocks_outside_images(d.events)
                &&& cmark::all_open(d.events)
                &&& forall|i: int|
                    0 <= i <= events.len() ==> cmark::image_depth(#[trigger] d.events.take(i))
                        == cmark::image_depth(events.take(i))
            }
            &&& forall|i: int|
                0 <= i < events.len() && transform::ends_summary(#[trigger] events[i])
                    ==> cmark::markup_of(d.events[i]) == Some(CONTINUE_READING@)
                    && d.state.has_summary
        },
{
    transform::lemma_pass_keeps(page, events);
    transform::lemma_pass_keeps_headings(page, events);
    if let Some((state, out)) = transform::pass(page, events) {
        if headings::headings_closed(events) {
            let refs = headings::heading_refs(out);
            headings::lemma_heading_refs(out);
            assert forall|k: int| 0 <= k < refs.len() implies 0 <= (#[trigger] refs[k]).start_idx
                < refs[k].end_idx < out.len() && refs[k].id is None by {
                assert(headings::ref_in_place(out, refs[k]));
            }
            headings::lemma_manual_ids(out, refs);
            let d = draft(page, events)->0;
            assert forall|k: int| 0 <= k < d.refs.len() implies (#[trigger] d.refs[k]).start_idx
                == refs[k].start_idx && d.refs[k].end_idx == refs[k].end_idx by {
                assert(d.refs[k] == (RefView { id: d.refs[k].id, ..refs[k] }));
            }
            assert forall|k: int| 0 <= k < d.refs.len() implies 0 <= (
            #[trigger] d.refs[k]).start_idx < d.refs[k].end_idx < d.events.len() by {
                assert(refs[k].start_idx < refs[k].end_idx);
            }
            assert forall|j: int, k: int| 0 <= j < k < d.refs.len() implies (
            #[trigger] d.refs[j]).end_idx < (#[trigger] d.refs[k]).start_idx by {
                assert(refs[j].end_idx < refs[k].start_idx);
            }
            assert forall|k: int| 0 <= k < d.refs.len() implies headings::is_heading_start(
                d.events[(#[trigger] d.refs[k]).start_idx],
            ) && headings::is_heading_end(d.events[d.refs[k].end_idx]) by {
                assert(headings::ref_in_place(out, refs[k]));
                assert(refs[k].end_idx > 0);
                assert(d.events[refs[k].start_idx] == out[refs[k].start_idx]);
                assert(d.events[refs[k].end_idx] == out[refs[k].end_idx]);
            }
            if transform::last_error(page, events) is None && cmark::blocks_outside_images(events)
                && cmark::all_open(events) {
                lemma_draft_depth(page, events);
            }
            transform::lemma_pass_summary(page, events);
            assert forall|i: int|
                0 <= i < events.len() && transform::ends_summary(
                    #[trigger] events[i],
                ) implies cmark::markup_of(d.events[i]) == Some(CONTINUE_READING@)
                && d.state.has_summary by {
                assert(cmark::markup_of(out[i]) == Some(CONTINUE_READING@));
            }
        }
    }
}

/// No two headings of a page have the same id, unless the page itself gives both.
pub proof fn lemma_page_ids_distinct<'a>(
    page: PageView,
    events: Seq<EventView<'a>>,
    slugs: Seq<Seq<char>>,
    j: int,
    k: int,
)
    requires
        draft(page, events) is Some,
        0 <= j < k < headings::heading_ids(
            (draft(page, events)->0).manual_ids,
            (draft(page, events)->0).refs,
            slugs,
        ).len(),
        (draft(page, events)->0).refs[j].id is None || (draft(page, events)->0).refs[k].id is None,
    ensures
        ({
            let d = draft(page, events)->0;
            let ids = headings::heading_ids(d.manual_ids, d.refs, slugs);
            ids[j] != ids[k]
        }),
{
    lemma_draft(page, events);
    let d = draft(page, events)->0;
    headings::lemma_ids_distinct(d.manual_ids, d.refs, slugs, j, k);
}

/// A page whose events have a rendering, whose headings are closed and get ids, and whose anchor
/// links do not fail is rendered if no link in it is bad, and otherwise refused for the last bad
/// link. Any other page is refused.
pub proof fn lemma_outcome(content: Seq<char>, context: &RenderContext, answers: Answers)
    ensures
        ({
            let events = cmark::page_events(content);
            let page = answered_page(content, context, answers);
            let d = draft(page, events)->0;
            let sound = {
                &&& transform::pass(page, events) is Some
                &&& headings::headings_closed(events)
                &&& answers.anchor_failure is None
                &&& headings::heading_ids(d.manual_ids, d.refs, answers.slugs).len()
                    >= d.refs.len()
            };
            let bad = transform::last_error(page, events);
            &&& outcome(content, context, answers) is Ok <==> sound && bad is None
            &&& sound && bad is Some ==> outcome(content, context, answers) == Err::<
                RenderedView,
                ErrorView,
            >(bad->0)
        }),
{
    let events = cmark::page_events(content);
    let page = answered_page(content, context, answers);
    lemma_draft(page, events);
    transform::lemma_pass_error(page, events);
}

/// A rendered page has no link without a destination, and the site says of each of its internal
/// links where it leads.
pub proof fn lemma_rendered_links_lead_somewhere(
    content: Seq<char>,
    context: &RenderContext,
    answers: Answers,
    i: int,
)
    requires
        answers.targets.len() == internal_destinations(cmark::page_events(content)).len(),
        outcome(content, context, answers) is Ok,
        0 <= i < cmark::page_events(content).len(),
    ensures
        cmark::page_events(content)[i] matches EventView::Start(TagView::Link(kind, link, _, _)) ==> {
            &&& link.len() > 0
            &&& !(kind is Email) && links::is_internal(link) ==> exists|k: int|
                0 <= k < answers.targets.len() && #[trigger] internal_destinations(
                    cmark::page_events(content),
                )[k] == link && answers.targets[k] is Some
        },
{
    let events = cmark::page_events(content);
    let page = answered_page(content, context, answers);
    lemma_outcome(content, context, answers);
    transform::lemma_pass_error(page, events);
    assert(transform::link_error(page, events[i]) is None);
    if let EventView::Start(TagView::Link(kind, link, _, _)) = events[i] {
        if link.len() > 0 {
            links::lemma_only_lost_links_fail(kind, link, page.permalink, page.links);
            lemma_link_table_says(internal_destinations(events), answers.targets, link);
        }
    }
}

/// Without highlighting, a page whose headings are closed, and are at most 256 together with the ids
/// that it gives, is rendered if the anchor links do not fail, every link in it has a destination,
/// and every internal link leads somewhere.
pub proof fn lemma_page_renders(content: Seq<char>, context: &RenderContext, answers: Answers)
    requires
        !context.config.highlight_code,
        headings::headings_closed(cmark::page_events(content)),
        answered_draft(content, context, answers) matches Some(d) ==> d.manual_ids.len()
            + d.refs.len() <= 256,
        answers.anchor_failure is None,
        answers.targets.len() == internal_destinations(cmark::page_events(content)).len(),
        forall|k: int| 0 <= k < answers.targets.len() ==> #[trigger] answers.targets[k] is Some,
        forall|i: int|
            0 <= i < cmark::page_events(content).len() ==> ((#[trigger] cmark::page_events(
                content,
            )[i]) matches EventView::Start(TagView::Link(_, link, _, _)) ==> link.len() > 0),
    ensures
        outcome(content, context, answers) is Ok,
{
    let events = cmark::page_events(content);
    let page = answered_page(content, context, answers);
    transform::lemma_pass_without_highlighting(page, events);
    lemma_draft(page, events);
    let d = draft(page, events)->0;
    headings::lemma_ids_complete(d.manual_ids, d.refs, answers.slugs);
    lemma_outcome(content, context, answers);
    transform::lemma_pass_error(page, events);
    assert forall|i: int| 0 <= i < events.len() implies transform::link_error(
        page,
        #[trigger] events[i],
    ) is None by {
        if let EventView::Start(TagView::Link(kind, link, _, _)) = events[i] {
            links::lemma_only_lost_links_fail(kind, link, page.permalink, page.links);
            if !(kind is Email) && links::is_internal(link) {
                lemma_destination_listed(events, i);
                assert(internal_destination(events[i])[0] == link);
                assert(internal_destination(events[i]).contains(link));
                let all = internal_destinations(events);
                let k = choose|k: int| 0 <= k < all.len() && all[k] == link;
                lemma_link_table_says(all, answers.targets, link);
                assert(answers.targets[k] is Some);
            }
        }
    }
}

/// A page of plain events is rendered as the parser and the writer of Markdown render it, without a
/// summary and without links.
pub proof fn lemma_plain_page(content: Seq<char>, context: &RenderContext, answers: Answers)
    requires
        forall|i: int|
            0 <= i < cmark::page_events(content).len() ==> transform::is_plain(
                #[trigger] cmark::page_events(content)[i],
            ),
        answers.anchor_links.len() == 0,
        answers.anchor_failure is None,
    ensures
        outcome(content, context, answers) == Ok::<RenderedView, ErrorView>(
            RenderedView {
                body: cmark::html_of(cmark::page_events(content)),
                summary_len: None,
                toc: answers.toc,
                internal_links_with_anchors: seq![],
                external_links: seq![],
            },
        ),
{
    let events = cmark::page_events(content);
    let page = answered_page(content, context, answers);
    transform::lemma_plain_pass(page, events);
    assert forall|i: int| 0 <= i < events.len() implies !headings::is_heading_start(
        #[trigger] events[i],
    ) && !headings::is_heading_end(events[i]) by {
        assert(transform::is_plain(events[i]));
    }
    headings::lemma_no_headings(events);
    assert(headings::headings_closed(events));
    let d = draft(page, events)->0;
    assert(d.refs.len() == 0);
    assert(headings::heading_ids(d.manual_ids, d.refs, answers.slugs).len() == 0);
}

} // verus!
