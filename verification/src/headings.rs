//! Headings: where they stand, what they are called, and the anchors by which they are reached.

use crate::cmark::{EndView, EventView, MdEnd, MdEvent, MdTag, TagView};
use crate::context::InsertAnchor;
use crate::{cmark, text};
use vstd::prelude::*;
use vstd::slice::slice_subrange;

verus! {

// ---------------------------------------------------------------------------------------------
// Where headings stand

/// A heading in a list of events.
#[derive(Debug)]
pub struct HeadingRef {
    /// Where it starts.
    pub start_idx: usize,
    /// Where it ends, or 0 as long as no end was found.
    pub end_idx: usize,
    pub level: u32,
    /// The id that the page gives it.
    pub id: Option<String>,
}

/// What a `HeadingRef` holds.
pub struct RefView {
    pub start_idx: int,
    pub end_idx: int,
    pub level: u32,
    pub id: Option<Seq<char>>,
}

impl View for HeadingRef {
    type V = RefView;

    open spec fn view(&self) -> RefView {
        RefView {
            start_idx: self.start_idx as int,
            end_idx: self.end_idx as int,
            level: self.level,
            id: text::text_of_option(self.id),
        }
    }
}

/// What the headings of a list hold.
pub open spec fn ref_views(refs: Seq<HeadingRef>) -> Seq<RefView> {
    refs.map_values(|r: HeadingRef| r@)
}

impl HeadingRef {
    /// A heading whose end was not found yet.
    pub fn new(start: usize, level: u32) -> (r: HeadingRef)
        ensures
            r@ == (RefView { start_idx: start as int, end_idx: 0, level, id: None }),
    {
        HeadingRef { start_idx: start, end_idx: 0, level, id: None }
    }
}

pub open spec fn is_heading_start(event: EventView) -> bool {
    event matches EventView::Start(TagView::Heading(_, _))
}

pub open spec fn is_heading_end(event: EventView) -> bool {
    event matches EventView::End(EndView::Heading(_))
}

/// No heading ends before one has started.
pub open spec fn starts_first(events: Seq<EventView>) -> bool {
    forall|i: int|
        0 <= i < events.len() && is_heading_end(#[trigger] events[i]) ==> exists|j: int|
            0 <= j < i && is_heading_start(#[trigger] events[j])
}

/// The headings of a list of events: each start is one, and each end is that of the heading that
/// started last.
pub open spec fn heading_refs(events: Seq<EventView>) -> Seq<RefView>
    decreases events.len(),
{
    if events.len() == 0 {
        seq![]
    } else {
        let before = heading_refs(events.drop_last());
        let n = events.len() - 1;
        match events.last() {
            EventView::Start(TagView::Heading(level, _)) => before.push(
                RefView { start_idx: n, end_idx: 0, level, id: None },
            ),
            EventView::End(EndView::Heading(_)) => if before.len() > 0 {
                before.update(before.len() - 1, RefView { end_idx: n, ..before.last() })
            } else {
                before
            },
            _ => before,
        }
    }
}

/// No heading ends before one has started, and every heading ends before the next one starts.
pub open spec fn headings_closed(events: Seq<EventView>) -> bool {
    &&& starts_first(events)
    &&& forall|k: int|
        0 <= k < heading_refs(events).len() ==> (#[trigger] heading_refs(events)[k]).end_idx > 0
}

/// Where a heading stands in its events.
pub open spec fn ref_in_place(events: Seq<EventView>, r: RefView) -> bool {
    &&& 0 <= r.start_idx < events.len()
    &&& events[r.start_idx] matches EventView::Start(TagView::Heading(level, _)) && level == r.level
    &&& r.id is None
    &&& r.end_idx == 0 || (r.start_idx < r.end_idx < events.len() && is_heading_end(
        events[r.end_idx],
    ))
}

/// The headings of a list of events stand in it one after another.
pub proof fn lemma_heading_refs(events: Seq<EventView>)
    ensures
        forall|k: int|
            0 <= k < heading_refs(events).len() ==> ref_in_place(
                events,
                #[trigger] heading_refs(events)[k],
            ),
        forall|j: int, k: int|
            0 <= j < k < heading_refs(events).len() ==> (#[trigger] heading_refs(
                events,
            )[j]).start_idx < (#[trigger] heading_refs(events)[k]).start_idx && heading_refs(
                events,
            )[j].end_idx < heading_refs(events)[k].start_idx,
    decreases events.len(),
{
    if events.len() > 0 {
        let rest = events.drop_last();
        let before = heading_refs(rest);
        lemma_heading_refs(rest);
        assert forall|k: int| 0 <= k < before.len() implies ref_in_place(
            events,
            #[trigger] before[k],
        ) by {
            assert(ref_in_place(rest, before[k]));
            assert(events[before[k].start_idx] == rest[before[k].start_idx]);
            if before[k].end_idx != 0 {
                assert(events[before[k].end_idx] == rest[before[k].end_idx]);
            }
        }
    }
}

/// Whether no heading ends before one has started.
fn check_starts_first<'a>(events: &Vec<MdEvent<'a>>) -> (r: bool)
    ensures
        r == starts_first(cmark::views(events@)),
{
    let ghost all = cmark::views(events@);
    let mut i: usize = 0;
    let mut seen = false;
    while i < events.len()
        invariant
            i <= events@.len(),
            all == cmark::views(events@),
            seen == exists|j: int| 0 <= j < i && is_heading_start(#[trigger] all[j]),
            forall|k: int|
                0 <= k < i && is_heading_end(#[trigger] all[k]) ==> exists|j: int|
                    0 <= j < k && is_heading_start(#[trigger] all[j]),
        decreases events@.len() - i,
    {
        assert(all[i as int] == events@[i as int]@);
        match &events[i] {
            MdEvent::Start(MdTag::Heading(_, _)) => {
                assert(is_heading_start(all[i as int]));
                seen = true;
            },
            MdEvent::End(MdEnd::Heading(_)) => {
                if !seen {
                    assert(is_heading_end(all[i as int]));
                    return false;
                }
            },
            _ => {},
        }
        i = i + 1;
    }
    true
}

/// Finds the headings of a list of events.
pub fn get_heading_refs<'a>(events: &Vec<MdEvent<'a>>) -> (r: Vec<HeadingRef>)
    requires
        starts_first(cmark::views(events@)),
    ensures
        ref_views(r@) == heading_refs(cmark::views(events@)),
{
    let ghost all = cmark::views(events@);
    let mut refs: Vec<HeadingRef> = Vec::new();
    let mut i: usize = 0;
    assert(all.take(0) =~= seq![]);
    assert(ref_views(refs@) =~= seq![]);
    while i < events.len()
        invariant
            i <= events@.len(),
            all == cmark::views(events@),
            starts_first(all),
            ref_views(refs@) == heading_refs(all.take(i as int)),
            (exists|j: int| 0 <= j < i && is_heading_start(#[trigger] all[j])) ==> refs@.len() > 0,
        decreases events@.len() - i,
    {
        let ghost before = ref_views(refs@);
        assert(all.take(i + 1).drop_last() =~= all.take(i as int));
        assert(all.take(i + 1).last() == events@[i as int]@);
        assert(all[i as int] == events@[i as int]@);
        match &events[i] {
            MdEvent::Start(MdTag::Heading(level, _)) => {
                refs.push(HeadingRef::new(i, *level));
                assert(ref_views(refs@) =~= before.push(
                    RefView { start_idx: i as int, end_idx: 0, level: *level, id: None },
                ));
            },
            MdEvent::End(MdEnd::Heading(_)) => {
                assert(is_heading_end(all[i as int]));
                let last: usize = refs.len() - 1;
                refs[last].end_idx = i;
                assert(ref_views(refs@) =~= before.update(
                    before.len() - 1,
                    RefView { end_idx: i as int, ..before.last() },
                ));
            },
            _ => {},
        }
        i = i + 1;
    }
    assert(all.take(i as int) =~= all);
    refs
}

/// Whether every heading is closed.
pub fn check_headings<'a>(events: &Vec<MdEvent<'a>>) -> (r: bool)
    ensures
        r == headings_closed(cmark::views(events@)),
{
    if !check_starts_first(events) {
        return false;
    }
    let refs = get_heading_refs(events);
    let ghost all = heading_refs(cmark::views(events@));
    let mut k: usize = 0;
    while k < refs.len()
        invariant
            k <= refs@.len(),
            all == ref_views(refs@),
            all == heading_refs(cmark::views(events@)),
            forall|j: int| 0 <= j < k ==> (#[trigger] all[j]).end_idx > 0,
        decreases refs@.len() - k,
    {
        assert(all[k as int] == refs@[k as int]@);
        if refs[k].end_idx == 0 {
            return false;
        }
        k = k + 1;
    }
    true
}

// ---------------------------------------------------------------------------------------------
// Titles

/// The text in a list of events: its texts and its code within lines.
pub open spec fn text_of(events: Seq<EventView>) -> Seq<char>
    decreases events.len(),
{
    if events.len() == 0 {
        seq![]
    } else {
        match events.last() {
            EventView::Text(t) => text_of(events.drop_last()) + t,
            EventView::Code(t) => text_of(events.drop_last()) + t,
            _ => text_of(events.drop_last()),
        }
    }
}

/// Gets only the text in a slice of events.
pub fn get_text<'a>(events: &[MdEvent<'a>]) -> (title: String)
    ensures
        title@ == text_of(cmark::views(events@)),
{
    let ghost all = cmark::views(events@);
    let mut title = String::new();
    let mut i: usize = 0;
    assert(all.take(0) =~= seq![]);
    while i < events.len()
        invariant
            i <= events@.len(),
            all == cmark::views(events@),
            title@ == text_of(all.take(i as int)),
        decreases events@.len() - i,
    {
        assert(all.take(i + 1).drop_last() =~= all.take(i as int));
        assert(all.take(i + 1).last() == events@[i as int]@);
        match &events[i] {
            MdEvent::Text(t) => {
                title.append(t.as_str());
            },
            MdEvent::Code(t) => {
                title.append(t.as_str());
            },
            _ => {},
        }
        i = i + 1;
    }
    assert(all.take(i as int) =~= all);
    title
}

/// The title of a heading: the text between its start and its end.
pub open spec fn heading_title(events: Seq<EventView>, r: RefView) -> Seq<char> {
    text_of(events.subrange(r.start_idx + 1, r.end_idx))
}

/// The headings end after they start, within the events.
pub open spec fn refs_fit(refs: Seq<RefView>, len: nat) -> bool {
    forall|k: int|
        0 <= k < refs.len() ==> 0 <= (#[trigger] refs[k]).start_idx < refs[k].end_idx < len
}

/// The titles of headings.
pub open spec fn heading_titles(events: Seq<EventView>, refs: Seq<RefView>) -> Seq<Seq<char>> {
    refs.map_values(|r: RefView| heading_title(events, r))
}

/// Gets the titles of headings.
pub fn get_titles<'a>(events: &Vec<MdEvent<'a>>, refs: &Vec<HeadingRef>) -> (r: Vec<String>)
    requires
        refs_fit(ref_views(refs@), events@.len()),
    ensures
        text::texts(r@) == heading_titles(cmark::views(events@), ref_views(refs@)),
{
    let ghost all = cmark::views(events@);
    let ghost views = ref_views(refs@);
    let mut titles: Vec<String> = Vec::new();
    let mut k: usize = 0;
    while k < refs.len()
        invariant
            k <= refs@.len(),
            all == cmark::views(events@),
            views == ref_views(refs@),
            refs_fit(views, events@.len()),
            titles@.len() == k,
            forall|j: int| 0 <= j < k ==> (#[trigger] titles@[j])@ == heading_title(all, views[j]),
        decreases refs@.len() - k,
    {
        let heading = &refs[k];
        assert(views[k as int] == heading@);
        let inner = slice_subrange(events.as_slice(), heading.start_idx + 1, heading.end_idx);
        assert(cmark::views(inner@) =~= all.subrange(
            heading.start_idx + 1,
            heading.end_idx as int,
        ));
        titles.push(get_text(inner));
        k = k + 1;
    }
    assert(text::texts(titles@) =~= heading_titles(all, views));
    titles
}

// ---------------------------------------------------------------------------------------------
// Ids that a page gives

/// A text without the spaces at its end.
pub open spec fn without_spaces(s: Seq<char>) -> Seq<char>
    decreases s.len(),
{
    if s.len() > 0 && s.last() == ' ' {
        without_spaces(s.drop_last())
    } else {
        s
    }
}

/// The id that stands at the end of a text as `{#id}`, and the text before it.
pub open spec fn manual_id(t: Seq<char>) -> Option<(Seq<char>, Seq<char>)> {
    if t.len() > 0 && t.last() == '}' {
        match text::find(t, "{#"@) {
            Some(i) => Some((without_spaces(t.take(i)), t.subrange(i + 2, t.len() - 1))),
            None => None,
        }
    } else {
        None
    }
}

/// Splits a text into the text of a heading and the id that the page gives it.
pub fn split_id(t: &str) -> (r: Option<(String, String)>)
    ensures
        match r {
            Some((rest, id)) => manual_id(t@) == Some((rest@, id@)),
            None => manual_id(t@) is None,
        },
{
    proof {
        reveal_strlit("{#");
    }
    let v = text::chars_of(t);
    let n: usize = v.len();
    if n == 0 || v[n - 1] != '}' {
        return None;
    }
    match text::find_text(t, "{#") {
        None => None,
        Some(i) => {
            proof {
                text::lemma_find_from(t@, "{#"@, 0);
                assert(t@.subrange(i as int, i + 2)[1] == t@[i + 1]);
                assert("{#"@[1] == '#');
            }
            let id = text::string_of(&v, i + 2, n - 1);
            let mut end: usize = i;
            while end > 0 && v[end - 1] == ' '
                invariant
                    end <= i <= v@.len(),
                    without_spaces(v@.take(i as int)) == without_spaces(v@.take(end as int)),
                decreases end,
            {
                assert(v@.take(end as int).drop_last() =~= v@.take(end - 1));
                end = end - 1;
            }
            let rest = text::string_of(&v, 0, end);
            assert(rest@ =~= v@.take(end as int));
            Some((rest, id))
        },
    }
}

/// What the ids that a page gives come to: the events without them, the headings with them, and
/// the ids in the order of the headings.
pub struct ManualIds<'a> {
    pub events: Seq<EventView<'a>>,
    pub refs: Seq<RefView>,
    pub ids: Seq<Seq<char>>,
}

/// Takes the ids out of the last texts of headings.
pub open spec fn manual_ids<'a>(events: Seq<EventView<'a>>, refs: Seq<RefView>) -> ManualIds<'a>
    decreases refs.len(),
{
    if refs.len() == 0 {
        ManualIds { events, refs: seq![], ids: seq![] }
    } else {
        let before = manual_ids(events, refs.drop_last());
        let r = refs.last();
        match before.events[r.end_idx - 1] {
            EventView::Text(t) => match manual_id(t) {
                Some((rest, id)) => ManualIds {
                    events: before.events.update(r.end_idx - 1, EventView::Text(rest)),
                    refs: before.refs.push(RefView { id: Some(id), ..r }),
                    ids: before.ids.push(id),
                },
                None => ManualIds { refs: before.refs.push(r), ..before },
            },
            _ => ManualIds { refs: before.refs.push(r), ..before },
        }
    }
}

/// Looks for ids that the page gives, as in `# Heading text {#hash}`, and takes them out of the
/// texts. Returns the ids.
pub fn take_manual_ids<'a>(events: &mut Vec<MdEvent<'a>>, refs: &mut Vec<HeadingRef>) -> (r: Vec<
    String,
>)
    requires
        refs_fit(ref_views(old(refs)@), old(events)@.len()),
    ensures
        manual_ids(cmark::views(old(events)@), ref_views(old(refs)@)) == (ManualIds {
            events: cmark::views(final(events)@),
            refs: ref_views(final(refs)@),
            ids: text::texts(r@),
        }),
        final(events)@.len() == old(events)@.len(),
        refs_fit(ref_views(final(refs)@), final(events)@.len()),
{
    let ghost all = cmark::views(events@);
    let ghost given = ref_views(refs@);
    let mut ids: Vec<String> = Vec::new();
    let mut k: usize = 0;
    assert(given.take(0) =~= seq![]);
    assert(text::texts(ids@) =~= seq![]);
    while k < refs.len()
        invariant
            k <= refs@.len(),
            refs@.len() == given.len(),
            events@.len() == all.len(),
            refs_fit(given, all.len()),
            forall|j: int| k <= j < given.len() ==> (#[trigger] refs@[j])@ == given[j],
            forall|j: int|
                0 <= j < k ==> (#[trigger] refs@[j]).start_idx == given[j].start_idx
                    && refs@[j].end_idx == given[j].end_idx,
            manual_ids(all, given.take(k as int)).events == cmark::views(events@),
            manual_ids(all, given.take(k as int)).refs == ref_views(refs@).take(k as int),
            manual_ids(all, given.take(k as int)).ids == text::texts(ids@),
        decreases given.len() - k,
    {
        assert(given.take(k + 1).drop_last() =~= given.take(k as int));
        assert(given[k as int] == refs@[k as int]@);
        let ghost events_before = cmark::views(events@);
        let ghost refs_before = ref_views(refs@);
        let ghost ids_before = text::texts(ids@);
        let at: usize = refs[k].end_idx - 1;
        assert(events_before[at as int] == events@[at as int]@);
        let split = match &events[at] {
            MdEvent::Text(t) => split_id(t.as_str()),
            _ => None,
        };
        if let Some((rest, id)) = split {
            ids.push(id.clone());
            assert(text::texts(ids@) =~= ids_before.push(id@));
            refs[k].id = Some(id);
            events[at] = MdEvent::Text(rest);
            assert(cmark::views(events@) =~= events_before.update(
                at as int,
                EventView::Text(rest@),
            ));
        }
        assert(ref_views(refs@).take(k + 1) =~= refs_before.take(k as int).push(refs@[k as int]@));
        k = k + 1;
    }
    assert(given.take(k as int) =~= given);
    assert(ref_views(refs@).take(k as int) =~= ref_views(refs@));
    assert forall|j: int| 0 <= j < refs@.len() implies 0 <= (#[trigger] ref_views(
        refs@,
    )[j]).start_idx < ref_views(refs@)[j].end_idx < events@.len() by {
        assert(ref_views(refs@)[j] == refs@[j]@);
        assert(given[j].start_idx < given[j].end_idx);
    }
    ids
}

// ---------------------------------------------------------------------------------------------
// Anchors

/// A name with a number behind it.
pub open spec fn numbered(name: Seq<char>, k: int) -> Seq<char> {
    name + "-"@ + text::decimal(k as nat)
}

/// The first number from `k` on, and not above 255, with which a name is no anchor yet.
pub open spec fn free_number(anchors: Seq<Seq<char>>, name: Seq<char>, k: int) -> Option<int>
    decreases 256 - k,
{
    if k > 255 {
        None
    } else if !anchors.contains(numbered(name, k)) {
        Some(k)
    } else {
        free_number(anchors, name, k + 1)
    }
}

/// The anchor that a name gets: itself, if it is none yet and `level` is 0, and otherwise the name
/// with the first number above `level` with which it is none yet.
pub open spec fn free_anchor(anchors: Seq<Seq<char>>, name: Seq<char>, level: int) -> Option<
    Seq<char>,
> {
    if level == 0 && !anchors.contains(name) {
        Some(name)
    } else {
        match free_number(anchors, name, level + 1) {
            Some(k) => Some(numbered(name, k)),
            None => None,
        }
    }
}

fn numbered_name(name: &str, k: u64) -> (r: String)
    ensures
        r@ == numbered(name@, k as int),
{
    let mut r = String::from_str(name);
    r.append("-");
    r.append(text::decimal_text(k).as_str());
    r
}

/// Finds an anchor for a name.
///
/// We might have cases where the slug is already present in our list of anchors,
/// for example an article could have several titles named Example.
/// We add a counter after the slug if the slug is already present, which
/// means we will have example, example-1, example-2 etc
pub fn find_anchor(anchors: &[String], name: String, level: u8) -> (r: String)
    requires
        free_anchor(text::texts(anchors@), name@, level as int) is Some,
    ensures
        free_anchor(text::texts(anchors@), name@, level as int) == Some(r@),
    decreases 255 - level,
{
    if level == 0 && !text::holds_text(anchors, name.as_str()) {
        return name;
    }
    let new_anchor = numbered_name(name.as_str(), level as u64 + 1);
    if !text::holds_text(anchors, new_anchor.as_str()) {
        return new_anchor;
    }
    find_anchor(anchors, name, level + 1)
}

/// Whether there is an anchor for a name.
pub fn has_anchor(anchors: &[String], name: &str) -> (r: bool)
    ensures
        r == (free_anchor(text::texts(anchors@), name@, 0) is Some),
{
    if !text::holds_text(anchors, name) {
        return true;
    }
    let ghost all = text::texts(anchors@);
    let mut k: u64 = 1;
    while k <= 255
        invariant
            1 <= k <= 256,
            all == text::texts(anchors@),
            free_number(all, name@, 1) == free_number(all, name@, k as int),
        decreases 256 - k,
    {
        if !text::holds_text(anchors, numbered_name(name, k).as_str()) {
            return true;
        }
        k = k + 1;
    }
    false
}

// ---------------------------------------------------------------------------------------------
// Ids of all headings

/// The ids of headings, one after another: the id that the page gives, or else an anchor for the
/// slug that is neither an id that the page gives nor the id of an earlier heading. They stop short
/// at a heading for which no anchor is left.
pub open spec fn heading_ids(
    manual: Seq<Seq<char>>,
    refs: Seq<RefView>,
    slugs: Seq<Seq<char>>,
) -> Seq<Seq<char>>
    decreases refs.len(),
{
    if refs.len() == 0 {
        seq![]
    } else {
        let before = heading_ids(manual, refs.drop_last(), slugs);
        let k = refs.len() - 1;
        if before.len() < k {
            before
        } else {
            match refs.last().id {
                Some(id) => before.push(id),
                None => match free_anchor(manual + before, slugs[k], 0) {
                    Some(id) => before.push(id),
                    None => before,
                },
            }
        }
    }
}

/// Gives headings their ids. `manual` are the ids that the page gives, `slugs` the slugs of the
/// titles.
pub fn assign_ids(manual: &Vec<String>, refs: &Vec<HeadingRef>, slugs: &Vec<String>) -> (r: Vec<
    String,
>)
    requires
        slugs@.len() == refs@.len(),
    ensures
        text::texts(r@) == heading_ids(
            text::texts(manual@),
            ref_views(refs@),
            text::texts(slugs@),
        ),
{
    let ghost given = text::texts(manual@);
    let ghost views = ref_views(refs@);
    let ghost names = text::texts(slugs@);
    let mut anchors: Vec<String> = Vec::new();
    let mut j: usize = 0;
    while j < manual.len()
        invariant
            j <= manual@.len(),
            given == text::texts(manual@),
            text::texts(anchors@) == given.take(j as int),
        decreases manual@.len() - j,
    {
        let ghost before = text::texts(anchors@);
        anchors.push(manual[j].clone());
        assert(text::texts(anchors@) =~= before.push(manual@[j as int]@));
        assert(given.take(j + 1) =~= before.push(given[j as int]));
        j = j + 1;
    }
    assert(given.take(j as int) =~= given);
    let mut ids: Vec<String> = Vec::new();
    let mut k: usize = 0;
    assert(views.take(0) =~= seq![]);
    assert(text::texts(ids@) =~= seq![]);
    assert(given + text::texts(ids@) =~= given);
    while k < refs.len()
        invariant
            k <= refs@.len(),
            slugs@.len() == refs@.len(),
            given == text::texts(manual@),
            views == ref_views(refs@),
            names == text::texts(slugs@),
            ids@.len() == k,
            text::texts(ids@) == heading_ids(given, views.take(k as int), names),
            text::texts(anchors@) == given + text::texts(ids@),
        decreases refs@.len() - k,
    {
        assert(views.take(k + 1).drop_last() =~= views.take(k as int));
        assert(views[k as int] == refs@[k as int]@);
        assert(names[k as int] == slugs@[k as int]@);
        let ghost ids_before = text::texts(ids@);
        let ghost anchors_before = text::texts(anchors@);
        let id = match &refs[k].id {
            Some(id) => id.clone(),
            None => {
                if !has_anchor(anchors.as_slice(), slugs[k].as_str()) {
                    proof {
                        assert(heading_ids(given, views.take(k + 1), names) == ids_before);
                        lemma_ids_stop(given, views, names, k + 1);
                    }
                    return ids;
                }
                find_anchor(anchors.as_slice(), slugs[k].clone(), 0)
            },
        };
        anchors.push(id.clone());
        assert(text::texts(anchors@) =~= anchors_before.push(id@));
        ids.push(id);
        assert(text::texts(ids@) =~= ids_before.push(id@));
        assert(anchors_before.push(id@) =~= given + ids_before.push(id@));
        k = k + 1;
    }
    assert(views.take(k as int) =~= views);
    ids
}

/// No heading gets more than one id.
pub proof fn lemma_ids_len(manual: Seq<Seq<char>>, refs: Seq<RefView>, slugs: Seq<Seq<char>>)
    ensures
        heading_ids(manual, refs, slugs).len() <= refs.len(),
    decreases refs.len(),
{
    if refs.len() > 0 {
        lemma_ids_len(manual, refs.drop_last(), slugs);
    }
}

/// Once the ids have stopped short, no later heading gets one.
proof fn lemma_ids_stop(
    manual: Seq<Seq<char>>,
    refs: Seq<RefView>,
    slugs: Seq<Seq<char>>,
    k: int,
)
    requires
        0 <= k <= refs.len(),
        heading_ids(manual, refs.take(k), slugs).len() < k,
    ensures
        heading_ids(manual, refs, slugs) == heading_ids(manual, refs.take(k), slugs),
    decreases refs.len(),
{
    if k == refs.len() {
        assert(refs.take(k) =~= refs);
    } else {
        assert(refs.drop_last().take(k) =~= refs.take(k));
        lemma_ids_stop(manual, refs.drop_last(), slugs, k);
    }
}

// ---------------------------------------------------------------------------------------------
// Headings in the output

/// The tag that opens a heading.
pub open spec fn heading_html(level: u32, id: Seq<char>) -> Seq<char> {
    "<h"@ + text::decimal(level as nat) + " id=\""@ + id + "\">"@
}

/// The events with the first headings opened by tags that hold their ids.
pub open spec fn tagged<'a>(
    events: Seq<EventView<'a>>,
    refs: Seq<RefView>,
    ids: Seq<Seq<char>>,
) -> Seq<EventView<'a>>
    decreases ids.len(),
{
    if ids.len() == 0 {
        events
    } else {
        let k = ids.len() - 1;
        tagged(events, refs, ids.drop_last()).update(
            refs[k].start_idx,
            EventView::Html(heading_html(refs[k].level, ids[k])),
        )
    }
}

/// Opens headings by tags that hold their ids.
pub fn tag_headings<'a>(events: &mut Vec<MdEvent<'a>>, refs: &Vec<HeadingRef>, ids: &Vec<String>)
    requires
        ids@.len() <= refs@.len(),
        refs_fit(ref_views(refs@), old(events)@.len()),
    ensures
        cmark::views(final(events)@) == tagged(
            cmark::views(old(events)@),
            ref_views(refs@),
            text::texts(ids@),
        ),
        final(events)@.len() == old(events)@.len(),
{
    let ghost all = cmark::views(events@);
    let ghost views = ref_views(refs@);
    let ghost names = text::texts(ids@);
    let mut k: usize = 0;
    assert(names.take(0) =~= seq![]);
    while k < ids.len()
        invariant
            k <= ids@.len() <= refs@.len(),
            views == ref_views(refs@),
            names == text::texts(ids@),
            refs_fit(views, all.len()),
            events@.len() == all.len(),
            cmark::views(events@) == tagged(all, views, names.take(k as int)),
        decreases ids@.len() - k,
    {
        assert(names.take(k + 1).drop_last() =~= names.take(k as int));
        assert(views[k as int] == refs@[k as int]@);
        let ghost before = cmark::views(events@);
        let mut html = String::from_str("<h");
        html.append(text::decimal_text(refs[k].level as u64).as_str());
        html.append(" id=\"");
        html.append(ids[k].as_str());
        html.append("\">");
        let at: usize = refs[k].start_idx;
        events[at] = MdEvent::Html(html);
        assert(cmark::views(events@) =~= before.update(at as int, EventView::Html(html@)));
        k = k + 1;
    }
    assert(names.take(k as int) =~= names);
}

/// A heading of a page, and the headings below it.
#[derive(Debug)]
pub struct Heading {
    pub level: u32,
    pub id: String,
    pub permalink: String,
    pub title: String,
    pub children: Vec<Heading>,
}

/// A heading is the one with this level, id and title on the page with this address, and has no
/// headings below it.
pub open spec fn is_heading(
    h: Heading,
    level: u32,
    id: Seq<char>,
    page: Seq<char>,
    title: Seq<char>,
) -> bool {
    &&& h.level == level
    &&& h.id@ == id
    &&& h.permalink@ == page + "#"@ + id
    &&& h.title@ == title
    &&& h.children@.len() == 0
}

/// The headings of a page, one after another.
pub open spec fn are_headings(
    headings: Seq<Heading>,
    refs: Seq<RefView>,
    ids: Seq<Seq<char>>,
    page: Seq<char>,
    titles: Seq<Seq<char>>,
) -> bool {
    &&& headings.len() == ids.len()
    &&& forall|k: int|
        0 <= k < headings.len() ==> is_heading(
            #[trigger] headings[k],
            refs[k].level,
            ids[k],
            page,
            titles[k],
        )
}

/// Lists the headings of a page.
pub fn list_headings(
    refs: &Vec<HeadingRef>,
    ids: &Vec<String>,
    page: &str,
    titles: &Vec<String>,
) -> (r: Vec<Heading>)
    requires
        ids@.len() <= refs@.len(),
        titles@.len() == refs@.len(),
    ensures
        are_headings(
            r@,
            ref_views(refs@),
            text::texts(ids@),
            page@,
            text::texts(titles@),
        ),
{
    let mut headings: Vec<Heading> = Vec::new();
    let mut k: usize = 0;
    while k < ids.len()
        invariant
            k <= ids@.len() <= refs@.len(),
            titles@.len() == refs@.len(),
            headings@.len() == k,
            forall|j: int|
                0 <= j < k ==> is_heading(
                    #[trigger] headings@[j],
                    ref_views(refs@)[j].level,
                    text::texts(ids@)[j],
                    page@,
                    text::texts(titles@)[j],
                ),
        decreases ids@.len() - k,
    {
        let mut permalink = String::from_str(page);
        permalink.append("#");
        permalink.append(ids[k].as_str());
        headings.push(
            Heading {
                level: refs[k].level,
                id: ids[k].clone(),
                permalink,
                title: titles[k].clone(),
                children: Vec::new(),
            },
        );
        k = k + 1;
    }
    headings
}

// ---------------------------------------------------------------------------------------------
// Anchor links

#[verifier::external_type_specification]
#[verifier::external_body]
pub struct ExContext(tera::Context);

/// A value that a template can use.
pub enum TemplateValue {
    Text(Seq<char>),
    Number(nat),
}

/// No values at all.
pub open spec fn no_values() -> Map<Seq<char>, TemplateValue> {
    Map::empty()
}

/// The values that a context holds, by their names.
pub uninterp spec fn context_values(context: tera::Context) -> Map<Seq<char>, TemplateValue>;

/// `Context::new`: a context that holds nothing.
#[verifier::external_body]
fn new_context() -> (r: tera::Context)
    ensures
        context_values(r) == no_values(),
{
    tera::Context::new()
}

/// `Context::insert` of a text: the name stands for the text from now on.
#[verifier::external_body]
fn insert_text(context: &mut tera::Context, name: &str, value: &str)
    ensures
        context_values(*final(context)) == context_values(*old(context)).insert(
            name@,
            TemplateValue::Text(value@),
        ),
{
    context.insert(name, value)
}

/// `Context::insert` of a number: the name stands for the number from now on.
#[verifier::external_body]
fn insert_number(context: &mut tera::Context, name: &str, value: u32)
    ensures
        context_values(*final(context)) == context_values(*old(context)).insert(
            name@,
            TemplateValue::Number(value as nat),
        ),
{
    context.insert(name, &value)
}

/// The template of the anchor links.
pub const ANCHOR_LINK_TEMPLATE: &'static str = "anchor-link.html";

/// What the template of the anchor links is rendered with.
pub open spec fn anchor_values(id: Seq<char>, level: u32) -> Map<Seq<char>, TemplateValue> {
    no_values().insert("id"@, TemplateValue::Text(id)).insert(
        "level"@,
        TemplateValue::Number(level as nat),
    )
}

/// What the template of the anchor links is rendered with for one heading.
pub fn anchor_context(id: &str, level: u32) -> (r: tera::Context)
    ensures
        context_values(r) == anchor_values(id@, level),
{
    let mut context = new_context();
    insert_text(&mut context, "id", id);
    insert_number(&mut context, "level", level);
    context
}

/// Where the anchor link of a heading goes.
pub open spec fn anchor_position(insert: InsertAnchor, r: RefView) -> int {
    match insert {
        InsertAnchor::Right => r.end_idx,
        _ => r.start_idx + 1,
    }
}

/// The events with the anchor links of the first headings at their places.
pub open spec fn with_anchors<'a>(
    events: Seq<EventView<'a>>,
    insert: InsertAnchor,
    refs: Seq<RefView>,
    links: Seq<Seq<char>>,
) -> Seq<EventView<'a>>
    decreases links.len(),
{
    if links.len() == 0 {
        events
    } else {
        let k = links.len() - 1;
        with_anchors(
            events.insert(anchor_position(insert, refs[k]), EventView::Html(links[k])),
            insert,
            refs,
            links.drop_last(),
        )
    }
}

/// Inserts the anchor links of headings at their places.
pub fn insert_anchors<'a>(
    events: &mut Vec<MdEvent<'a>>,
    insert: InsertAnchor,
    refs: &Vec<HeadingRef>,
    links: Vec<String>,
)
    requires
        links@.len() <= refs@.len(),
        refs_fit(ref_views(refs@), old(events)@.len()),
    ensures
        cmark::views(final(events)@) == with_anchors(
            cmark::views(old(events)@),
            insert,
            ref_views(refs@),
            text::texts(links@),
        ),
{
    let ghost all = cmark::views(events@);
    let ghost views = ref_views(refs@);
    let ghost given = text::texts(links@);
    let mut links = links;
    assert(given.take(given.len() as int) =~= given);
    loop
        invariant_except_break
            text::texts(links@) == given.take(links@.len() as int),
            with_anchors(all, insert, views, given) == with_anchors(
                cmark::views(events@),
                insert,
                views,
                given.take(links@.len() as int),
            ),
        invariant
            links@.len() <= given.len() <= refs@.len(),
            views == ref_views(refs@),
            refs_fit(views, all.len()),
            all.len() <= events@.len(),
        ensures
            with_anchors(all, insert, views, given) == cmark::views(events@),
        decreases links@.len(),
    {
        let ghost n = links@.len() as int;
        match links.pop() {
            None => {
                break;
            },
            Some(link) => {
                let k: usize = links.len();
                let ghost before = cmark::views(events@);
                assert(views[k as int] == refs@[k as int]@);
                assert(given.take(n).drop_last() =~= given.take(k as int));
                assert(text::texts(links@) =~= given.take(k as int));
                assert(given[k as int] == given.take(n)[k as int]);
                let at: usize = match insert {
                    InsertAnchor::Right => refs[k].end_idx,
                    _ => refs[k].start_idx + 1,
                };
                events.insert(at, MdEvent::Html(link));
                assert(cmark::views(events@) =~= before.insert(
                    at as int,
                    EventView::Html(link@),
                ));
            },
        }
    }
}

// ---------------------------------------------------------------------------------------------
// Laws of the anchors

/// Different numbers make different names.
proof fn lemma_numbered_injective(name: Seq<char>, j: int, k: int)
    requires
        0 <= j,
        0 <= k,
        numbered(name, j) == numbered(name, k),
    ensures
        j == k,
{
    let head = name + "-"@;
    assert(numbered(name, j).skip(head.len() as int) =~= text::decimal(j as nat));
    assert(numbered(name, k).skip(head.len() as int) =~= text::decimal(k as nat));
    text::lemma_decimal_injective(j as nat, k as nat);
}

/// The free number is the first one with which the name is no anchor yet, and it is missing exactly
/// if there is none up to 255.
proof fn lemma_free_number(anchors: Seq<Seq<char>>, name: Seq<char>, k: int)
    ensures
        match free_number(anchors, name, k) {
            Some(n) => {
                &&& k <= n <= 255
                &&& !anchors.contains(numbered(name, n))
                &&& forall|j: int| k <= j < n ==> anchors.contains(#[trigger] numbered(name, j))
            },
            None => forall|j: int| k <= j <= 255 ==> anchors.contains(#[trigger] numbered(name, j)),
        },
    decreases 256 - k,
{
    if k <= 255 && anchors.contains(numbered(name, k)) {
        lemma_free_number(anchors, name, k + 1);
    }
}

/// The anchor that a name gets is none yet. It is the name itself if that is none yet, and otherwise
/// the name with the first number from 1 on with which it is none yet: `example`, `example-1`,
/// `example-2` and so on.
pub proof fn lemma_free_anchor(anchors: Seq<Seq<char>>, name: Seq<char>)
    ensures
        free_anchor(anchors, name, 0) matches Some(r) ==> {
            &&& !anchors.contains(r)
            &&& !anchors.contains(name) ==> r == name
            &&& anchors.contains(name) ==> exists|n: int|
                {
                    &&& 1 <= n <= 255
                    &&& r == #[trigger] numbered(name, n)
                    &&& forall|j: int| 1 <= j < n ==> anchors.contains(#[trigger] numbered(name, j))
                }
        },
{
    lemma_free_number(anchors, name, 1);
    if anchors.contains(name) {
        if let Some(n) = free_number(anchors, name, 1) {
            assert(free_anchor(anchors, name, 0) == Some(numbered(name, n)));
        }
    }
}

/// The names that `find_anchor` tries: the name itself, and the name with the numbers from 1 on.
spec fn candidate(name: Seq<char>, k: int) -> Seq<char> {
    if k == 0 {
        name
    } else {
        numbered(name, k)
    }
}

/// As long as there are fewer than 256 anchors, every name gets one.
pub proof fn lemma_anchor_exists(anchors: Seq<Seq<char>>, name: Seq<char>)
    requires
        anchors.len() < 256,
    ensures
        free_anchor(anchors, name, 0) is Some,
{
    if free_anchor(anchors, name, 0) is None {
        lemma_free_number(anchors, name, 1);
        let all = Seq::new(256, |k: int| candidate(name, k));
        assert(all.no_duplicates()) by {
            assert forall|j: int, k: int| 0 <= j < 256 && 0 <= k < 256 && j != k implies all[j]
                != all[k] by {
                if candidate(name, j) == candidate(name, k) {
                    assert(numbered(name, j).len() > name.len());
                    assert(numbered(name, k).len() > name.len());
                    lemma_numbered_injective(name, j, k);
                }
            }
        }
        assert forall|s: Seq<char>| all.to_set().contains(s) implies anchors.to_set().contains(
            s,
        ) by {
            let k = choose|k: int| 0 <= k < all.len() && all[k] == s;
            if k > 0 {
                assert(anchors.contains(numbered(name, k)));
            }
        }
        all.unique_seq_to_set();
        anchors.lemma_cardinality_of_set();
        vstd::set_lib::lemma_len_subset(all.to_set(), anchors.to_set());
    }
}

/// If the ids that the page gives and the headings are together at most 256, every heading gets an
/// id.
pub proof fn lemma_ids_complete(manual: Seq<Seq<char>>, refs: Seq<RefView>, slugs: Seq<Seq<char>>)
    requires
        manual.len() + refs.len() <= 256,
    ensures
        heading_ids(manual, refs, slugs).len() == refs.len(),
    decreases refs.len(),
{
    if refs.len() > 0 {
        lemma_ids_complete(manual, refs.drop_last(), slugs);
        let before = heading_ids(manual, refs.drop_last(), slugs);
        lemma_anchor_exists(manual + before, slugs[refs.len() - 1]);
    }
}

/// The ids that the headings of the beginning get are those that they get in the whole.
pub proof fn lemma_ids_prefix(
    manual: Seq<Seq<char>>,
    refs: Seq<RefView>,
    slugs: Seq<Seq<char>>,
    k: int,
)
    requires
        0 <= k < heading_ids(manual, refs, slugs).len(),
    ensures
        k < refs.len(),
        heading_ids(manual, refs.take(k), slugs) == heading_ids(manual, refs, slugs).take(k),
        match refs[k].id {
            Some(id) => heading_ids(manual, refs, slugs)[k] == id,
            None => free_anchor(
                manual + heading_ids(manual, refs, slugs).take(k),
                slugs[k],
                0,
            ) == Some(heading_ids(manual, refs, slugs)[k]),
        },
    decreases refs.len(),
{
    let ids = heading_ids(manual, refs, slugs);
    lemma_ids_len(manual, refs, slugs);
    let rest = refs.drop_last();
    let before = heading_ids(manual, rest, slugs);
    lemma_ids_len(manual, rest, slugs);
    if k < before.len() {
        lemma_ids_prefix(manual, rest, slugs, k);
        assert(rest.take(k) =~= refs.take(k));
        assert(before.take(k) =~= ids.take(k));
    } else {
        assert(refs.take(k) =~= rest);
        assert(ids.take(k) =~= before);
    }
}

/// No two headings have the same id, unless the page itself gives both.
pub proof fn lemma_ids_distinct(
    manual: Seq<Seq<char>>,
    refs: Seq<RefView>,
    slugs: Seq<Seq<char>>,
    j: int,
    k: int,
)
    requires
        forall|i: int|
            0 <= i < refs.len() ==> ((#[trigger] refs[i]).id matches Some(id) ==> manual.contains(
                id,
            )),
        0 <= j < heading_ids(manual, refs, slugs).len(),
        0 <= k < heading_ids(manual, refs, slugs).len(),
        j != k,
        refs[j].id is None || refs[k].id is None,
    ensures
        heading_ids(manual, refs, slugs)[j] != heading_ids(manual, refs, slugs)[k],
{
    let ids = heading_ids(manual, refs, slugs);
    let (a, b) = if refs[k].id is None && (j < k || refs[j].id is Some) {
        (j, k)
    } else {
        (k, j)
    };
    lemma_ids_prefix(manual, refs, slugs, a);
    lemma_ids_prefix(manual, refs, slugs, b);
    let taken = manual + ids.take(b);
    lemma_free_anchor(taken, slugs[b]);
    if a < b {
        assert(taken[manual.len() + a] == ids[a]);
    } else {
        let id = refs[a].id->0;
        let i = choose|i: int| 0 <= i < manual.len() && manual[i] == id;
        assert(taken[i] == id);
    }
}

/// The ids that a page gives are the ids of the headings that it gives them to. Nothing but texts
/// changes when they are taken out.
pub proof fn lemma_manual_ids(events: Seq<EventView>, refs: Seq<RefView>)
    requires
        refs_fit(refs, events.len()),
        forall|i: int| 0 <= i < refs.len() ==> (#[trigger] refs[i]).id is None,
    ensures
        manual_ids(events, refs).refs.len() == refs.len(),
        manual_ids(events, refs).events.len() == events.len(),
        manual_ids(events, refs).ids.len() <= refs.len(),
        forall|i: int|
            0 <= i < refs.len() ==> ((#[trigger] manual_ids(events, refs).refs[i]).id matches Some(
                id,
            ) ==> manual_ids(events, refs).ids.contains(id)),
        forall|i: int|
            0 <= i < refs.len() ==> (#[trigger] manual_ids(events, refs).refs[i]) == (RefView {
                id: manual_ids(events, refs).refs[i].id,
                ..refs[i]
            }),
        forall|i: int|
            0 <= i < events.len() ==> (#[trigger] manual_ids(events, refs).events[i]) == events[i]
                || (events[i] is Text && manual_ids(events, refs).events[i] is Text),
    decreases refs.len(),
{
    if refs.len() > 0 {
        let rest = refs.drop_last();
        assert forall|i: int| 0 <= i < rest.len() implies (#[trigger] rest[i]).id is None by {
            assert(rest[i] == refs[i]);
        }
        assert(refs_fit(rest, events.len())) by {
            assert forall|i: int| 0 <= i < rest.len() implies 0 <= (#[trigger] rest[i]).start_idx
                < rest[i].end_idx < events.len() by {
                assert(rest[i] == refs[i]);
            }
        }
        assert(refs[refs.len() - 1] == refs.last());
        lemma_manual_ids(events, rest);
        let before = manual_ids(events, rest);
        let now = manual_ids(events, refs);
        assert forall|i: int| 0 <= i < refs.len() implies ((#[trigger] now.refs[i]).id matches Some(
            id,
        ) ==> now.ids.contains(id)) by {
            if i < rest.len() {
                assert(now.refs[i] == before.refs[i]);
                if let Some(id) = before.refs[i].id {
                    let j = choose|j: int| 0 <= j < before.ids.len() && before.ids[j] == id;
                    assert(now.ids[j] == id);
                }
            } else if let Some(id) = now.refs[i].id {
                assert(now.ids[now.ids.len() - 1] == id);
            }
        }
        assert forall|i: int| 0 <= i < refs.len() implies (#[trigger] now.refs[i]) == (RefView {
            id: now.refs[i].id,
            ..refs[i]
        }) by {
            if i < rest.len() {
                assert(now.refs[i] == before.refs[i]);
                assert(rest[i] == refs[i]);
            }
        }
    }
}

/// That many spaces.
pub open spec fn spaces(n: nat) -> Seq<char> {
    Seq::new(n, |i: int| ' ')
}

/// A text is what is left of it without the spaces at its end, and these spaces.
proof fn lemma_without_spaces(s: Seq<char>) -> (n: nat)
    ensures
        s == without_spaces(s) + spaces(n),
    decreases s.len(),
{
    if s.len() > 0 && s.last() == ' ' {
        let n = lemma_without_spaces(s.drop_last());
        assert(s =~= s.drop_last().push(' '));
        assert(spaces(n + 1) =~= spaces(n).push(' '));
        assert(s =~= without_spaces(s) + spaces(n + 1));
        n + 1
    } else {
        assert(s =~= without_spaces(s) + spaces(0));
        0
    }
}

/// Spaces behind a text that does not end in one go away.
proof fn lemma_spaces_go(s: Seq<char>, n: nat)
    requires
        s.len() == 0 || s.last() != ' ',
    ensures
        without_spaces(s + spaces(n)) == s,
    decreases n,
{
    if n == 0 {
        assert(s + spaces(0) =~= s);
    } else {
        let m = (n - 1) as nat;
        lemma_spaces_go(s, m);
        assert((s + spaces(n)).last() == ' ');
        assert((s + spaces(n)).drop_last() =~= s + spaces(m));
    }
}

/// Behind a text without `{#` and spaces, `{#` does not stand before the next brace.
proof fn lemma_no_mark_before(heading: Seq<char>, n: nat, tail: Seq<char>, i: int)
    requires
        !text::contains(heading, "{#"@),
        tail.len() > 0,
        tail[0] == '{',
        0 <= i < heading.len() + n,
    ensures
        !text::occurs_at(heading + spaces(n) + tail, "{#"@, i),
{
    reveal_strlit("{#");
    let mark = "{#"@;
    let t = heading + spaces(n) + tail;
    if text::occurs_at(t, mark, i) {
        assert(t.subrange(i, i + 2)[0] == t[i] && mark[0] == '{');
        assert(t.subrange(i, i + 2)[1] == t[i + 1] && mark[1] == '#');
        if i + 1 < heading.len() {
            assert(heading.subrange(i, i + 2) =~= t.subrange(i, i + 2));
            assert(text::occurs_at(heading, mark, i));
        }
    }
}

/// A text that ends in `{#id}` gives the id, and is left without it and without the spaces before
/// it.
pub proof fn lemma_manual_id(heading: Seq<char>, n: nat, id: Seq<char>)
    requires
        !text::contains(heading, "{#"@),
        heading.len() == 0 || heading.last() != ' ',
    ensures
        manual_id(heading + spaces(n) + "{#"@ + id + "}"@) == Some((heading, id)),
{
    reveal_strlit("{#");
    reveal_strlit("}");
    let mark = "{#"@;
    let before = heading + spaces(n);
    let tail = mark + id + "}"@;
    let t = before + mark + id + "}"@;
    let at = before.len() as int;
    assert(t =~= before + tail);
    assert(t.subrange(at, at + 2) =~= mark);
    assert(text::occurs_at(t, mark, at));
    text::lemma_find_from(t, mark, 0);
    let found = text::find(t, mark)->0;
    if found < at {
        lemma_no_mark_before(heading, n, tail, found);
    }
    assert(found == at);
    assert(t.last() == '}');
    assert(t.take(at) =~= before);
    assert(t.subrange(at + 2, t.len() - 1) =~= id);
    lemma_spaces_go(heading, n);
}

/// A text gives an id only if it ends in `{#id}`, and what is left of it is what stands before that
/// and before spaces.
pub proof fn lemma_manual_id_only(t: Seq<char>)
    ensures
        manual_id(t) matches Some((rest, id)) ==> exists|n: nat|
            t == rest + #[trigger] spaces(n) + "{#"@ + id + "}"@,
{
    if let Some((rest, id)) = manual_id(t) {
        reveal_strlit("{#");
        reveal_strlit("}");
        let at = text::find(t, "{#"@)->0;
        text::lemma_find_from(t, "{#"@, 0);
        assert(t.subrange(at, at + 2)[1] == t[at + 1]);
        assert("{#"@[1] == '#');
        let n = lemma_without_spaces(t.take(at));
        assert(t =~= t.take(at) + t.subrange(at, at + 2) + id + "}"@);
        assert(t == rest + spaces(n) + "{#"@ + id + "}"@);
    }
}

// ---------------------------------------------------------------------------------------------
// Laws of the headings in the output

/// Every heading ends before the next one starts.
pub open spec fn refs_in_order(refs: Seq<RefView>) -> bool {
    forall|j: int, k: int|
        0 <= j < k < refs.len() ==> (#[trigger] refs[j]).end_idx < (#[trigger] refs[k]).start_idx
}

/// Each heading is opened by the tag that holds its id, and no other event changes.
pub proof fn lemma_tagged<'a>(events: Seq<EventView<'a>>, refs: Seq<RefView>, ids: Seq<Seq<char>>)
    requires
        ids.len() <= refs.len(),
        refs_fit(refs, events.len()),
        refs_in_order(refs),
    ensures
        tagged(events, refs, ids).len() == events.len(),
        forall|k: int|
            0 <= k < ids.len() ==> tagged(events, refs, ids)[(#[trigger] refs[k]).start_idx]
                == EventView::<'a>::Html(heading_html(refs[k].level, ids[k])),
        forall|i: int|
            0 <= i < events.len() && (forall|k: int|
                0 <= k < ids.len() ==> (#[trigger] refs[k]).start_idx != i) ==> #[trigger] tagged(
                events,
                refs,
                ids,
            )[i] == events[i],
    decreases ids.len(),
{
    if ids.len() > 0 {
        let rest = ids.drop_last();
        let n = ids.len() - 1;
        lemma_tagged(events, refs, rest);
        let before = tagged(events, refs, rest);
        assert forall|k: int| 0 <= k < ids.len() implies tagged(events, refs, ids)[(
        #[trigger] refs[k]).start_idx] == EventView::<'a>::Html(
            heading_html(refs[k].level, ids[k]),
        ) by {
            if k < n {
                assert(refs[k].end_idx < refs[n].start_idx);
                assert(rest[k] == ids[k]);
            }
        }
    }
}

/// How many of the first `n` anchor links go before the event at `i`.
pub open spec fn anchors_before(
    insert: InsertAnchor,
    refs: Seq<RefView>,
    n: nat,
    i: int,
) -> nat
    decreases n,
{
    if n == 0 {
        0
    } else {
        let before = anchors_before(insert, refs, (n - 1) as nat, i);
        if anchor_position(insert, refs[n - 1]) <= i {
            before + 1
        } else {
            before
        }
    }
}

/// All the anchor links go before what stands behind the last one.
proof fn lemma_all_anchors_before(insert: InsertAnchor, refs: Seq<RefView>, n: nat, i: int)
    requires
        forall|k: int| 0 <= k < n ==> anchor_position(insert, #[trigger] refs[k]) <= i,
    ensures
        anchors_before(insert, refs, n, i) == n,
    decreases n,
{
    if n > 0 {
        lemma_all_anchors_before(insert, refs, (n - 1) as nat, i);
        assert(anchor_position(insert, refs[n - 1]) <= i);
    }
}

/// Each heading gets its anchor link, directly behind its start or directly before its end; all
/// other events keep their order, and their depth in images.
pub proof fn lemma_with_anchors<'a>(
    events: Seq<EventView<'a>>,
    insert: InsertAnchor,
    refs: Seq<RefView>,
    links: Seq<Seq<char>>,
)
    requires
        links.len() <= refs.len(),
        refs_fit(refs, events.len()),
        refs_in_order(refs),
    ensures
        with_anchors(events, insert, refs, links).len() == events.len() + links.len(),
        forall|k: int|
            0 <= k < links.len() ==> with_anchors(events, insert, refs, links)[anchor_position(
                insert,
                #[trigger] refs[k],
            ) + k] == EventView::<'a>::Html(links[k]),
        forall|i: int|
            0 <= i < events.len() ==> with_anchors(events, insert, refs, links)[i + anchors_before(
                insert,
                refs,
                links.len(),
                i,
            )] == #[trigger] events[i],
        forall|k: int|
            0 <= k < links.len() ==> cmark::image_depth(
                with_anchors(events, insert, refs, links).take(
                    anchor_position(insert, #[trigger] refs[k]) + k,
                ),
            ) == cmark::image_depth(events.take(anchor_position(insert, refs[k]))),
        forall|i: int|
            0 <= i < events.len() ==> cmark::image_depth(
                with_anchors(events, insert, refs, links).take(
                    i + anchors_before(insert, refs, links.len(), i),
                ),
            ) == cmark::image_depth(#[trigger] events.take(i)),
    decreases links.len(),
{
    if links.len() > 0 {
        let rest = links.drop_last();
        let n = links.len() - 1;
        let at = anchor_position(insert, refs[n]);
        let more = events.insert(at, EventView::Html(links[n]));
        let out = with_anchors(events, insert, refs, links);
        assert forall|k: int| 0 <= k < refs.len() implies 0 <= (#[trigger] refs[k]).start_idx
            < refs[k].end_idx < more.len() by {}
        lemma_with_anchors(more, insert, refs, rest);
        assert(out == with_anchors(more, insert, refs, rest));
        assert forall|k: int| 0 <= k < n implies anchor_position(insert, #[trigger] refs[k])
            <= at by {
            assert(refs[k].end_idx < refs[n].start_idx);
        }
        assert forall|k: int| 0 <= k < links.len() implies out[anchor_position(
            insert,
            #[trigger] refs[k],
        ) + k] == EventView::<'a>::Html(links[k]) by {
            if k < n {
                assert(rest[k] == links[k]);
            } else {
                lemma_all_anchors_before(insert, refs, n as nat, at);
                assert(more[at] == EventView::<'a>::Html(links[n]));
            }
        }
        assert forall|i: int| 0 <= i < events.len() implies out[i + anchors_before(
            insert,
            refs,
            links.len(),
            i,
        )] == #[trigger] events[i] by {
            if i < at {
                assert(more[i] == events[i]);
            } else {
                assert(more[i + 1] == events[i]);
                lemma_all_anchors_before(insert, refs, n as nat, i + 1);
                lemma_all_anchors_before(insert, refs, n as nat, i);
            }
        }
        assert(0 <= at <= events.len()) by {
            assert(refs[n].start_idx < refs[n].end_idx < events.len());
        }
        assert forall|k: int| 0 <= k < links.len() implies cmark::image_depth(
            out.take(anchor_position(insert, #[trigger] refs[k]) + k),
        ) == cmark::image_depth(events.take(anchor_position(insert, refs[k]))) by {
            let place = anchor_position(insert, refs[k]);
            assert(refs[k].start_idx < refs[k].end_idx < events.len());
            cmark::lemma_insert_depth(events, at, links[n], place);
            if k == n {
                lemma_all_anchors_before(insert, refs, n as nat, at);
                assert(cmark::image_depth(more.take(at)) == cmark::image_depth(events.take(at)));
            }
        }
        assert forall|i: int| 0 <= i < events.len() implies cmark::image_depth(
            out.take(i + anchors_before(insert, refs, links.len(), i)),
        ) == cmark::image_depth(#[trigger] events.take(i)) by {
            cmark::lemma_insert_depth(events, at, links[n], i);
            if i < at {
                assert(cmark::image_depth(more.take(i)) == cmark::image_depth(events.take(i)));
            } else {
                assert(cmark::image_depth(more.take(i + 1)) == cmark::image_depth(events.take(i)));
                lemma_all_anchors_before(insert, refs, n as nat, i + 1);
                lemma_all_anchors_before(insert, refs, n as nat, i);
            }
        }
    }
}

/// Events without the start of a heading have no headings.
pub proof fn lemma_no_headings(events: Seq<EventView>)
    requires
        forall|i: int| 0 <= i < events.len() ==> !is_heading_start(#[trigger] events[i]),
    ensures
        heading_refs(events).len() == 0,
    decreases events.len(),
{
    if events.len() > 0 {
        let rest = events.drop_last();
        assert forall|i: int| 0 <= i < rest.len() implies !is_heading_start(#[trigger] rest[i]) by {
            assert(rest[i] == events[i]);
        }
        lemma_no_headings(rest);
        assert(!is_heading_start(events[events.len() - 1]));
    }
}

} // verus!
