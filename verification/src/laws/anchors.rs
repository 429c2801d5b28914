//! Laws of headings: where they are, what they are called, and how they are shown.

use crate::cmark::{EndView, EventView, TagView};
use crate::context::InsertAnchor;
use crate::headings;
use crate::headings::{Heading, RefView, TemplateValue, ANCHOR_LINK_TEMPLATE};
use crate::laws::{code, strings};
use crate::{code_block, text};
use vstd::prelude::*;

verus! {

// ---------------------------------------------------------------------------------------------
// Tags

/// The tag that opens a heading is `<h`, the level in decimal, ` id="`, the id and `">`. The result
/// is the level as it is written.
pub proof fn lemma_opening_tag(level: u32, id: Seq<char>) -> (digits: Seq<char>)
    ensures
        code::are_digits(digits),
        code_block::number(digits) == level,
        headings::heading_html(level, id) == "<h"@ + digits + " id=\""@ + id + "\">"@,
{
    strings::lemma_decimal(level as nat);
    text::decimal(level as nat)
}

/// Tags of headings with different levels are different, and so are tags with different ids.
pub proof fn lemma_tags_differ(a: u32, x: Seq<char>, b: u32, y: Seq<char>)
    requires
        a != b || x != y,
    ensures
        headings::heading_html(a, x) != headings::heading_html(b, y),
{
    let d = lemma_opening_tag(a, x);
    let e = lemma_opening_tag(b, y);
    let s = headings::heading_html(a, x);
    let t = headings::heading_html(b, y);
    reveal_strlit("<h");
    reveal_strlit(" id=\"");
    reveal_strlit("\">");
    if s == t {
        assert(s[2int + d.len()] == ' ');
        assert(t[2int + e.len()] == ' ');
        if d.len() < e.len() {
            assert(t[2int + d.len()] == e[d.len() as int]);
        }
        if e.len() < d.len() {
            assert(s[2int + e.len()] == d[e.len() as int]);
        }
        assert(s.subrange(2, (2 + d.len()) as int) =~= d);
        assert(t.subrange(2, (2 + d.len()) as int) =~= e);
        assert(s.subrange((7 + d.len()) as int, s.len() - 2) =~= x);
        assert(t.subrange((7 + d.len()) as int, t.len() - 2) =~= y);
    }
}

// ---------------------------------------------------------------------------------------------
// Where headings stand

/// The event starts a heading.
pub open spec fn starts(event: EventView) -> bool {
    event matches EventView::Start(TagView::Heading(_, _))
}

/// The event ends a heading.
pub open spec fn ends(event: EventView) -> bool {
    event matches EventView::End(EndView::Heading(_))
}

/// Every start is that of one heading, which has its level. The end of a heading is the last one
/// before the next heading starts; it is missing, and counts as 0, exactly if there is none.
pub proof fn lemma_headings_found(events: Seq<EventView>)
    ensures
        ({
            let refs = headings::heading_refs(events);
            &&& forall|i: int|
                0 <= i < events.len() && starts(#[trigger] events[i]) ==> exists|k: int|
                    0 <= k < refs.len() && (#[trigger] refs[k]).start_idx == i
            &&& forall|k: int|
                0 <= k < refs.len() ==> {
                    let r = #[trigger] refs[k];
                    &&& 0 <= r.start_idx < events.len()
                    &&& events[r.start_idx] matches EventView::Start(TagView::Heading(level, _))
                        && level == r.level
                    &&& r.id is None
                    &&& r.end_idx == 0 || (r.start_idx < r.end_idx < events.len() && ends(
                        events[r.end_idx],
                    ))
                }
            &&& forall|j: int, k: int|
                0 <= j < k < refs.len() ==> (#[trigger] refs[j]).start_idx < (
                #[trigger] refs[k]).start_idx && refs[j].end_idx < refs[k].start_idx
            &&& forall|k: int, i: int|
                #![trigger refs[k], events[i]]
                0 <= k < refs.len() && refs[k].start_idx < i < events.len() && ends(events[i]) && (
                k + 1 < refs.len() ==> i < refs[k + 1].start_idx) ==> i <= refs[k].end_idx
        }),
{
    headings::lemma_heading_refs(events);
    let refs = headings::heading_refs(events);
    assert forall|k: int| 0 <= k < refs.len() implies {
        let r = #[trigger] refs[k];
        &&& 0 <= r.start_idx < events.len()
        &&& events[r.start_idx] matches EventView::Start(TagView::Heading(level, _)) && level
            == r.level
        &&& r.id is None
        &&& r.end_idx == 0 || (r.start_idx < r.end_idx < events.len() && ends(events[r.end_idx]))
    } by {
        assert(headings::ref_in_place(events, refs[k]));
    }
    lemma_every_start(events);
    assert forall|k: int, i: int|
        #![trigger refs[k], events[i]]
        0 <= k < refs.len() && refs[k].start_idx < i < events.len() && ends(events[i]) && (k + 1
            < refs.len() ==> i < refs[k + 1].start_idx) implies i <= refs[k].end_idx by {
        lemma_last_end(events, k, i);
    }
}

proof fn lemma_every_start(events: Seq<EventView>)
    ensures
        forall|i: int|
            0 <= i < events.len() && starts(#[trigger] events[i]) ==> exists|k: int|
                0 <= k < headings::heading_refs(events).len() && (#[trigger] headings::heading_refs(
                    events,
                )[k]).start_idx == i,
    decreases events.len(),
{
    let refs = headings::heading_refs(events);
    if events.len() > 0 {
        let rest = events.drop_last();
        let before = headings::heading_refs(rest);
        let n = events.len() - 1;
        lemma_every_start(rest);
        assert(events.last() == events[n]);
        assert forall|i: int| 0 <= i < events.len() && starts(#[trigger] events[i]) implies exists|
            k: int,
        |
            0 <= k < refs.len() && (#[trigger] refs[k]).start_idx == i by {
            if i < n {
                assert(rest[i] == events[i]);
                let k = choose|k: int| 0 <= k < before.len() && (#[trigger] before[k]).start_idx == i;
                assert(refs[k].start_idx == i);
            } else {
                assert(refs[refs.len() - 1].start_idx == n);
            }
        }
    }
}

proof fn lemma_last_end(events: Seq<EventView>, k: int, i: int)
    requires
        0 <= k < headings::heading_refs(events).len(),
        headings::heading_refs(events)[k].start_idx < i < events.len(),
        ends(events[i]),
        k + 1 < headings::heading_refs(events).len() ==> i < headings::heading_refs(events)[k
            + 1].start_idx,
    ensures
        i <= headings::heading_refs(events)[k].end_idx,
    decreases events.len(),
{
    let refs = headings::heading_refs(events);
    let rest = events.drop_last();
    let before = headings::heading_refs(rest);
    let n = events.len() - 1;
    headings::lemma_heading_refs(events);
    assert(headings::ref_in_place(events, refs[k]));
    assert(events.last() == events[n]);
    if i < n {
        assert(rest[i] == events[i]);
        if k < before.len() {
            assert(before[k].start_idx == refs[k].start_idx);
            if k + 1 < before.len() {
                assert(before[k + 1].start_idx == refs[k + 1].start_idx);
            }
            lemma_last_end(rest, k, i);
        }
    } else if k + 1 < refs.len() {
        assert(headings::ref_in_place(events, refs[k + 1]));
    }
}

/// Every end has a start before it.
pub open spec fn ends_follow(events: Seq<EventView>) -> bool {
    forall|i: int|
        0 <= i < events.len() && ends(#[trigger] events[i]) ==> exists|j: int|
            0 <= j < i && starts(#[trigger] events[j])
}

/// The heading that starts here ends: an end stands behind the start, with no other start between
/// them.
pub open spec fn is_closed(events: Seq<EventView>, i: int) -> bool {
    exists|j: int|
        i < j < events.len() && ends(#[trigger] events[j]) && forall|m: int|
            i < m < j ==> !starts(#[trigger] events[m])
}

/// Headings are closed exactly if every end has a start before it, and every start has an end behind
/// it with no other start between them.
pub proof fn lemma_closed(events: Seq<EventView>)
    ensures
        headings::headings_closed(events) <==> ends_follow(events) && forall|i: int|
            0 <= i < events.len() && starts(#[trigger] events[i]) ==> is_closed(events, i),
{
    assert(headings::starts_first(events) == ends_follow(events)) by {
        lemma_ends_follow(events);
    }
    lemma_headings_found(events);
    let refs = headings::heading_refs(events);
    if headings::headings_closed(events) {
        assert forall|i: int| 0 <= i < events.len() && starts(#[trigger] events[i]) implies
            is_closed(events, i) by {
            let k = choose|k: int| 0 <= k < refs.len() && (#[trigger] refs[k]).start_idx == i;
            lemma_end_closes(events, k);
        }
    }
    if ends_follow(events) && forall|i: int|
        0 <= i < events.len() && starts(#[trigger] events[i]) ==> is_closed(events, i) {
        assert forall|k: int| 0 <= k < refs.len() implies (#[trigger] refs[k]).end_idx > 0 by {
            assert(starts(events[refs[k].start_idx]));
            lemma_closed_ends(events, k);
        }
    }
}

proof fn lemma_ends_follow(events: Seq<EventView>)
    ensures
        headings::starts_first(events) == ends_follow(events),
{
    assert forall|i: int| headings::is_heading_end(#[trigger] events[i]) == ends(events[i]) by {}
    assert forall|i: int| headings::is_heading_start(#[trigger] events[i]) == starts(events[i]) by {}
    if headings::starts_first(events) {
        assert forall|i: int| 0 <= i < events.len() && ends(#[trigger] events[i]) implies exists|
            j: int,
        |
            0 <= j < i && starts(#[trigger] events[j]) by {
            assert(headings::is_heading_end(events[i]));
            let j = choose|j: int| 0 <= j < i && headings::is_heading_start(#[trigger] events[j]);
            assert(starts(events[j]));
        }
    }
    if ends_follow(events) {
        assert forall|i: int|
            0 <= i < events.len() && headings::is_heading_end(#[trigger] events[i]) implies exists|
            j: int,
        |
            0 <= j < i && headings::is_heading_start(#[trigger] events[j]) by {
            assert(ends(events[i]));
            let j = choose|j: int| 0 <= j < i && starts(#[trigger] events[j]);
            assert(headings::is_heading_start(events[j]));
        }
    }
}

proof fn lemma_end_closes(events: Seq<EventView>, k: int)
    requires
        0 <= k < headings::heading_refs(events).len(),
        headings::heading_refs(events)[k].end_idx > 0,
    ensures
        is_closed(events, headings::heading_refs(events)[k].start_idx),
{
    lemma_headings_found(events);
    let refs = headings::heading_refs(events);
    let i = refs[k].start_idx;
    let e = refs[k].end_idx;
    assert(ends(events[e]));
    assert forall|m: int| i < m < e implies !starts(#[trigger] events[m]) by {
        if starts(events[m]) {
            let l = choose|l: int| 0 <= l < refs.len() && (#[trigger] refs[l]).start_idx == m;
            if l < k {
                assert(refs[l].start_idx < refs[k].start_idx);
            } else if l > k {
                assert(refs[k].end_idx < refs[l].start_idx);
            }
        }
    }
}

proof fn lemma_closed_ends(events: Seq<EventView>, k: int)
    requires
        0 <= k < headings::heading_refs(events).len(),
        is_closed(events, headings::heading_refs(events)[k].start_idx),
    ensures
        headings::heading_refs(events)[k].end_idx > 0,
{
    lemma_headings_found(events);
    let refs = headings::heading_refs(events);
    let i = refs[k].start_idx;
    let j = choose|j: int|
        i < j < events.len() && ends(#[trigger] events[j]) && forall|m: int|
            i < m < j ==> !starts(#[trigger] events[m]);
    if k + 1 < refs.len() {
        let next = refs[k + 1].start_idx;
        assert(starts(events[next]));
        assert(i < next);
        assert(next != j);
    }
    assert(j <= refs[k].end_idx);
}

/// In a page whose headings are closed, the event that starts the k-th heading becomes its opening
/// tag, with the level of that event and the k-th id. No other event changes.
pub proof fn lemma_starts_tagged<'a>(events: Seq<EventView<'a>>, ids: Seq<Seq<char>>, k: int) -> (digits: Seq<
    char,
>)
    requires
        headings::headings_closed(events),
        ids.len() <= headings::heading_refs(events).len(),
        0 <= k < ids.len(),
    ensures
        ({
            let i = headings::heading_refs(events)[k].start_idx;
            &&& 0 <= i < events.len()
            &&& events[i] matches EventView::Start(TagView::Heading(level, _))
                && code::are_digits(digits) && code_block::number(digits) == level
                && headings::tagged(events, headings::heading_refs(events), ids)[i]
                == EventView::<'a>::Html("<h"@ + digits + " id=\""@ + ids[k] + "\">"@)
        }),
        forall|i: int|
            0 <= i < events.len() && !starts(#[trigger] events[i]) ==> headings::tagged(
                events,
                headings::heading_refs(events),
                ids,
            )[i] == events[i],
        headings::tagged(events, headings::heading_refs(events), ids).len() == events.len(),
{
    let refs = headings::heading_refs(events);
    lemma_headings_found(events);
    assert forall|j: int| 0 <= j < refs.len() implies 0 <= (#[trigger] refs[j]).start_idx
        < refs[j].end_idx < events.len() by {}
    headings::lemma_tagged(events, refs, ids);
    let out = headings::tagged(events, refs, ids);
    assert(out[refs[k].start_idx] == EventView::<'a>::Html(
        headings::heading_html(refs[k].level, ids[k]),
    ));
    assert forall|i: int| 0 <= i < events.len() && !starts(#[trigger] events[i]) implies out[i]
        == events[i] by {
        assert forall|j: int| 0 <= j < ids.len() implies (#[trigger] refs[j]).start_idx != i by {
            assert(starts(events[refs[j].start_idx]));
        }
    }
    lemma_opening_tag(refs[k].level, ids[k])
}

// ---------------------------------------------------------------------------------------------
// Titles

/// The text of events is that of one after another: of a text and of code what they hold, and of
/// any other event nothing.
pub proof fn lemma_text_of(a: Seq<EventView>, b: Seq<EventView>)
    ensures
        headings::text_of(a + b) == headings::text_of(a) + headings::text_of(b),
        headings::text_of(seq![]) == Seq::<char>::empty(),
        forall|e: EventView|
            headings::text_of(#[trigger] seq![e]) == (match e {
                EventView::Text(t) => t,
                EventView::Code(t) => t,
                _ => seq![],
            }),
    decreases b.len(),
{
    assert forall|e: EventView|
        headings::text_of(#[trigger] seq![e]) == (match e {
            EventView::Text(t) => t,
            EventView::Code(t) => t,
            _ => seq![],
        }) by {
        assert(seq![e].drop_last() =~= seq![]);
        assert(headings::text_of(seq![]) == Seq::<char>::empty());
    }
    if b.len() == 0 {
        assert(a + b =~= a);
        assert(headings::text_of(b) == Seq::<char>::empty());
    } else {
        lemma_text_of(a, b.drop_last());
        assert((a + b).drop_last() =~= a + b.drop_last());
        assert((a + b).last() == b.last());
    }
}

/// The k-th title is the text between the start and the end of the k-th heading.
pub proof fn lemma_titles(events: Seq<EventView>, refs: Seq<RefView>)
    ensures
        headings::heading_titles(events, refs).len() == refs.len(),
        forall|k: int|
            0 <= k < refs.len() ==> #[trigger] headings::heading_titles(events, refs)[k]
                == headings::text_of(events.subrange(refs[k].start_idx + 1, refs[k].end_idx)),
{
}

// ---------------------------------------------------------------------------------------------
// Ids that a page gives

/// The id that a page gives a heading stands in the event before its end, if that is a text that ends
/// in an id: the text is left without it, and the heading has it. All other events and all other
/// headings stay as they are, and the ids are those of the headings, in their order.
pub proof fn lemma_ids_taken(events: Seq<EventView>, refs: Seq<RefView>)
    requires
        headings::refs_fit(refs, events.len()),
        headings::refs_in_order(refs),
        forall|k: int| 0 <= k < refs.len() ==> (#[trigger] refs[k]).id is None,
    ensures
        ({
            let m = headings::manual_ids(events, refs);
            &&& m.events.len() == events.len()
            &&& m.refs.len() == refs.len()
            &&& forall|k: int|
                0 <= k < refs.len() ==> {
                    let at = (#[trigger] refs[k]).end_idx - 1;
                    &&& m.refs[k].start_idx == refs[k].start_idx
                    &&& m.refs[k].end_idx == refs[k].end_idx
                    &&& m.refs[k].level == refs[k].level
                    &&& match events[at] {
                        EventView::Text(t) => match headings::manual_id(t) {
                            Some((rest, id)) => m.events[at] == EventView::Text(rest)
                                && m.refs[k].id == Some(id),
                            None => m.events[at] == events[at] && m.refs[k].id is None,
                        },
                        _ => m.events[at] == events[at] && m.refs[k].id is None,
                    }
                }
            &&& forall|i: int|
                0 <= i < events.len() && (forall|k: int|
                    0 <= k < refs.len() ==> (#[trigger] refs[k]).end_idx - 1 != i)
                    ==> #[trigger] m.events[i] == events[i]
            &&& m.ids == m.refs.filter(|r: RefView| r.id is Some).map_values(|r: RefView| r.id->0)
        }),
    decreases refs.len(),
{
    reveal(Seq::filter);
    let has = |r: RefView| r.id is Some;
    let id_of = |r: RefView| r.id->0;
    let m = headings::manual_ids(events, refs);
    if refs.len() == 0 {
        assert(m.refs.filter(has).map_values(id_of) =~= m.ids);
    } else {
        let rest = refs.drop_last();
        let n = refs.len() - 1;
        let last = refs[n];
        assert(last == refs.last());
        assert forall|k: int| 0 <= k < rest.len() implies (#[trigger] rest[k]) == refs[k] by {}
        assert(headings::refs_fit(rest, events.len())) by {
            assert forall|k: int| 0 <= k < rest.len() implies 0 <= (#[trigger] rest[k]).start_idx
                < rest[k].end_idx < events.len() by {
                assert(rest[k] == refs[k]);
            }
        }
        assert(headings::refs_in_order(rest)) by {
            assert forall|j: int, k: int| 0 <= j < k < rest.len() implies (
            #[trigger] rest[j]).end_idx < (#[trigger] rest[k]).start_idx by {
                assert(refs[j].end_idx < refs[k].start_idx);
            }
        }
        lemma_ids_taken(events, rest);
        let b = headings::manual_ids(events, rest);
        let at = last.end_idx - 1;
        assert forall|k: int| 0 <= k < rest.len() implies (#[trigger] rest[k]).end_idx - 1 != at by {
            assert(refs[k].end_idx < refs[n].start_idx);
        }
        assert(b.events[at] == events[at]);
        assert(m.refs.drop_last() =~= b.refs);
        assert(m.refs.filter(has) == (if has(m.refs.last()) {
            b.refs.filter(has).push(m.refs.last())
        } else {
            b.refs.filter(has)
        }));
        if m.refs.last().id is Some {
            assert(b.refs.filter(has).push(m.refs.last()).map_values(id_of) =~= b.refs.filter(
                has,
            ).map_values(id_of).push(m.refs.last().id->0));
        }
        assert forall|k: int| 0 <= k < refs.len() implies {
            let at = (#[trigger] refs[k]).end_idx - 1;
            &&& m.refs[k].start_idx == refs[k].start_idx
            &&& m.refs[k].end_idx == refs[k].end_idx
            &&& m.refs[k].level == refs[k].level
            &&& match events[at] {
                EventView::Text(t) => match headings::manual_id(t) {
                    Some((rest, id)) => m.events[at] == EventView::Text(rest) && m.refs[k].id
                        == Some(id),
                    None => m.events[at] == events[at] && m.refs[k].id is None,
                },
                _ => m.events[at] == events[at] && m.refs[k].id is None,
            }
        } by {
            if k < n {
                assert(rest[k] == refs[k]);
                assert(m.refs[k] == b.refs[k]);
                assert(refs[k].end_idx < refs[n].start_idx);
                assert(m.events[refs[k].end_idx - 1] == b.events[refs[k].end_idx - 1]);
            }
        }
        assert forall|i: int|
            0 <= i < events.len() && (forall|k: int|
                0 <= k < refs.len() ==> (#[trigger] refs[k]).end_idx - 1 != i) implies
            #[trigger] m.events[i] == events[i] by {
            assert(refs[n].end_idx - 1 != i);
            assert forall|k: int| 0 <= k < rest.len() implies (#[trigger] rest[k]).end_idx - 1
                != i by {
                assert(refs[k].end_idx - 1 != i);
            }
            assert(b.events[i] == events[i]);
        }
    }
}

/// A text holds an id exactly if `{#` stands in it and `}` at its end. The id is what stands between
/// the first `{#` and that, and what is left is what stands before, without the spaces at its end.
pub proof fn lemma_id_in_text(t: Seq<char>)
    ensures
        headings::manual_id(t) is Some <==> t.len() > 0 && t.last() == '}' && text::contains(
            t,
            "{#"@,
        ),
        headings::manual_id(t) matches Some((rest, id)) ==> {
            &&& rest.len() == 0 || rest.last() != ' '
            &&& !text::contains(rest, "{#"@)
            &&& exists|gap: Seq<char>|
                {
                    &&& #[trigger] (rest + gap + "{#"@ + id + "}"@) == t
                    &&& forall|i: int| 0 <= i < gap.len() ==> #[trigger] gap[i] == ' '
                }
        },
{
    text::lemma_find_contains(t, "{#"@);
    text::lemma_find_from(t, "{#"@, 0);
    headings::lemma_manual_id_only(t);
    if let Some((rest, id)) = headings::manual_id(t) {
        let n = choose|n: nat| t == rest + #[trigger] headings::spaces(n) + "{#"@ + id + "}"@;
        let gap = headings::spaces(n);
        assert(rest + gap + "{#"@ + id + "}"@ == t);
        assert forall|i: int| 0 <= i < gap.len() implies #[trigger] gap[i] == ' ' by {}
        let at = text::find(t, "{#"@)->0;
        lemma_no_space_at_end(t.take(at));
        if text::contains(rest, "{#"@) {
            let i = choose|i: int| text::occurs_at(rest, "{#"@, i);
            reveal_strlit("{#");
            assert(rest.len() <= at);
            assert(t.subrange(i, i + 2) =~= rest.subrange(i, i + 2));
            assert(text::occurs_at(t, "{#"@, i));
        }
    }
}

proof fn lemma_no_space_at_end(s: Seq<char>)
    ensures
        headings::without_spaces(s).len() <= s.len(),
        headings::without_spaces(s).len() == 0 || headings::without_spaces(s).last() != ' ',
    decreases s.len(),
{
    if s.len() > 0 && s.last() == ' ' {
        lemma_no_space_at_end(s.drop_last());
    }
}

// ---------------------------------------------------------------------------------------------
// Anchors

/// A text is a name, a hyphen and a number in decimal.
pub open spec fn is_numbered(s: Seq<char>, name: Seq<char>, k: int) -> bool {
    exists|digits: Seq<char>|
        {
            &&& #[trigger] (name + "-"@ + digits) == s
            &&& code::are_digits(digits)
            &&& digits[0] != '0'
            &&& code_block::number(digits) == k
        }
}

proof fn lemma_numbered(name: Seq<char>, k: int)
    requires
        k > 0,
    ensures
        is_numbered(headings::numbered(name, k), name, k),
{
    strings::lemma_decimal(k as nat);
    let digits = text::decimal(k as nat);
    assert(name + "-"@ + digits == headings::numbered(name, k));
}

proof fn lemma_first_free(anchors: Seq<Seq<char>>, name: Seq<char>, k: int)
    requires
        k > 0,
    ensures
        match headings::free_number(anchors, name, k) {
            Some(n) => {
                &&& k <= n <= 255
                &&& !anchors.contains(headings::numbered(name, n))
                &&& forall|j: int|
                    k <= j < n ==> anchors.contains(#[trigger] headings::numbered(name, j))
            },
            None => forall|j: int|
                k <= j <= 255 ==> anchors.contains(#[trigger] headings::numbered(name, j)),
        },
    decreases 256 - k,
{
    if k <= 255 && anchors.contains(headings::numbered(name, k)) {
        lemma_first_free(anchors, name, k + 1);
    }
}

/// One of the anchors is the name with this number.
pub open spec fn is_taken(anchors: Seq<Seq<char>>, name: Seq<char>, k: int) -> bool {
    exists|i: int| 0 <= i < anchors.len() && is_numbered(#[trigger] anchors[i], name, k)
}

/// A text is the name with this number, it is no anchor, and all smaller numbers above `level` are
/// taken.
pub open spec fn is_first_free(
    anchors: Seq<Seq<char>>,
    name: Seq<char>,
    level: int,
    s: Seq<char>,
    n: int,
) -> bool {
    &&& level < n <= 255
    &&& is_numbered(s, name, n)
    &&& !anchors.contains(s)
    &&& forall|j: int| level < j < n ==> #[trigger] is_taken(anchors, name, j)
}

/// A name that is no anchor yet is its own anchor. Otherwise, and if the search starts above 0, the
/// anchor is the name with the smallest number above where the search starts that is no anchor yet.
/// There is none exactly if all of them up to 255 are taken.
pub proof fn lemma_anchor(anchors: Seq<Seq<char>>, name: Seq<char>, level: int)
    requires
        0 <= level <= 255,
    ensures
        level == 0 && !anchors.contains(name) ==> headings::free_anchor(anchors, name, level)
            == Some(name),
        level > 0 || anchors.contains(name) ==> (headings::free_anchor(
            anchors,
            name,
            level,
        ) matches Some(r) ==> exists|n: int| #[trigger] is_first_free(anchors, name, level, r, n)),
        level > 0 || anchors.contains(name) ==> (headings::free_anchor(
            anchors,
            name,
            level,
        ) is None ==> forall|j: int| level < j <= 255 ==> #[trigger] is_taken(anchors, name, j)),
{
    if level > 0 || anchors.contains(name) {
        lemma_first_free(anchors, name, level + 1);
        let top = match headings::free_number(anchors, name, level + 1) {
            Some(n) => n,
            None => 256,
        };
        assert forall|j: int| level < j < top implies #[trigger] is_taken(anchors, name, j) by {
            assert(anchors.contains(headings::numbered(name, j)));
            let i = choose|i: int|
                0 <= i < anchors.len() && anchors[i] == headings::numbered(name, j);
            lemma_numbered(name, j);
            assert(is_numbered(anchors[i], name, j));
        }
        if let Some(n) = headings::free_number(anchors, name, level + 1) {
            lemma_numbered(name, n);
            assert(is_first_free(
                anchors,
                name,
                level,
                headings::free_anchor(anchors, name, level)->0,
                n,
            ));
        }
    }
}

/// The id of a heading is the one that the page gives it. A heading without such an id gets an anchor
/// for its slug that is neither an id that the page gives nor the id of a heading before it; if the
/// slug itself is neither, it is the slug.
pub proof fn lemma_id_of_heading(
    manual: Seq<Seq<char>>,
    refs: Seq<RefView>,
    slugs: Seq<Seq<char>>,
    k: int,
)
    requires
        0 <= k < headings::heading_ids(manual, refs, slugs).len(),
    ensures
        k < refs.len(),
        ({
            let ids = headings::heading_ids(manual, refs, slugs);
            match refs[k].id {
                Some(id) => ids[k] == id,
                None => {
                    &&& !manual.contains(ids[k])
                    &&& forall|j: int| 0 <= j < k ==> #[trigger] ids[j] != ids[k]
                    &&& !manual.contains(slugs[k]) && (forall|j: int|
                        0 <= j < k ==> #[trigger] ids[j] != slugs[k]) ==> ids[k] == slugs[k]
                    &&& ids[k] != slugs[k] ==> exists|n: int|
                        #[trigger] is_first_free(
                            manual + ids.take(k),
                            slugs[k],
                            0,
                            ids[k],
                            n,
                        )
                },
            }
        }),
{
    let ids = headings::heading_ids(manual, refs, slugs);
    headings::lemma_ids_prefix(manual, refs, slugs, k);
    if refs[k].id is None {
        let taken = manual + ids.take(k);
        headings::lemma_free_anchor(taken, slugs[k]);
        lemma_anchor(taken, slugs[k], 0);
        assert forall|i: int| 0 <= i < manual.len() implies #[trigger] manual[i] != ids[k] by {
            assert(taken[i] == manual[i]);
        }
        assert forall|j: int| 0 <= j < k implies #[trigger] ids[j] != ids[k] by {
            assert(taken[manual.len() + j] == ids[j]);
        }
        if !manual.contains(slugs[k]) && (forall|j: int|
            0 <= j < k ==> #[trigger] ids[j] != slugs[k]) {
            assert forall|i: int| 0 <= i < taken.len() implies taken[i] != slugs[k] by {
                if i < manual.len() {
                    assert(taken[i] == manual[i]);
                    assert(manual.contains(manual[i]));
                } else {
                    assert(taken[i] == ids[i - manual.len()]);
                }
            }
            assert(!taken.contains(slugs[k]));
        }
        if ids[k] != slugs[k] {
            assert(taken.contains(slugs[k]));
        }
    }
}

/// The ids stop short only at a heading to which the page gives no id, and for whose slug no anchor
/// is left.
pub proof fn lemma_ids_stop_short(
    manual: Seq<Seq<char>>,
    refs: Seq<RefView>,
    slugs: Seq<Seq<char>>,
)
    ensures
        ({
            let ids = headings::heading_ids(manual, refs, slugs);
            let n = ids.len() as int;
            &&& n <= refs.len()
            &&& n < refs.len() ==> refs[n].id is None && headings::free_anchor(
                manual + ids,
                slugs[n],
                0,
            ) is None
        }),
    decreases refs.len(),
{
    if refs.len() > 0 {
        lemma_ids_stop_short(manual, refs.drop_last(), slugs);
    }
}

// ---------------------------------------------------------------------------------------------
// The list of headings

/// The list has one heading for each id, with the level, the id and the title of that heading. Its
/// address is that of the page, `#` and the id. No heading stands below another one.
pub proof fn lemma_listed(
    list: Seq<Heading>,
    refs: Seq<RefView>,
    ids: Seq<Seq<char>>,
    page: Seq<char>,
    titles: Seq<Seq<char>>,
)
    requires
        headings::are_headings(list, refs, ids, page, titles),
    ensures
        list.len() == ids.len(),
        forall|k: int|
            0 <= k < ids.len() ==> {
                let h = #[trigger] list[k];
                &&& h.level == refs[k].level
                &&& h.id@ == ids[k]
                &&& h.permalink@ == page + "#"@ + ids[k]
                &&& h.title@ == titles[k]
                &&& h.children@.len() == 0
            },
{
    assert forall|k: int| 0 <= k < ids.len() implies {
        let h = #[trigger] list[k];
        &&& h.level == refs[k].level
        &&& h.id@ == ids[k]
        &&& h.permalink@ == page + "#"@ + ids[k]
        &&& h.title@ == titles[k]
        &&& h.children@.len() == 0
    } by {
        assert(headings::is_heading(list[k], refs[k].level, ids[k], page, titles[k]));
    }
}

// ---------------------------------------------------------------------------------------------
// Anchor links

/// An anchor link is rendered from the template `anchor-link.html`, which is given the id and the
/// level of its heading and nothing else.
pub proof fn lemma_anchor_values(id: Seq<char>, level: u32)
    ensures
        ANCHOR_LINK_TEMPLATE@ == "anchor-link.html"@,
        headings::anchor_values(id, level).dom() == set!["id"@, "level"@],
        headings::anchor_values(id, level)["id"@] == TemplateValue::Text(id),
        headings::anchor_values(id, level)["level"@] == TemplateValue::Number(level as nat),
{
    reveal_strlit("id");
    reveal_strlit("level");
    assert("id"@.len() != "level"@.len());
    assert(headings::anchor_values(id, level).dom() =~= set!["id"@, "level"@]);
}

proof fn lemma_count(insert: InsertAnchor, refs: Seq<RefView>, n: nat, i: int, m: int)
    requires
        0 <= m <= n <= refs.len(),
        forall|k: int| 0 <= k < m ==> headings::anchor_position(insert, #[trigger] refs[k]) <= i,
        forall|k: int| m <= k < n ==> headings::anchor_position(insert, #[trigger] refs[k]) > i,
    ensures
        headings::anchors_before(insert, refs, n, i) == m,
    decreases n,
{
    if n > 0 {
        if m == n {
            assert(headings::anchor_position(insert, refs[n - 1]) <= i);
            lemma_count(insert, refs, (n - 1) as nat, i, m - 1);
        } else {
            assert(headings::anchor_position(insert, refs[n - 1]) > i);
            lemma_count(insert, refs, (n - 1) as nat, i, m);
        }
    }
}

/// On the left, the link of a heading goes directly behind its start: an event with `m` starts before
/// it moves by `m`, and the link of the k-th heading stands behind its start, which moved by `k`.
pub proof fn lemma_links_left<'a>(
    events: Seq<EventView<'a>>,
    refs: Seq<RefView>,
    links: Seq<Seq<char>>,
    i: int,
    m: int,
)
    requires
        links.len() <= refs.len(),
        headings::refs_fit(refs, events.len()),
        headings::refs_in_order(refs),
        0 <= i < events.len(),
        0 <= m <= links.len(),
        forall|k: int| 0 <= k < m ==> (#[trigger] refs[k]).start_idx < i,
        forall|k: int| m <= k < links.len() ==> (#[trigger] refs[k]).start_idx >= i,
    ensures
        ({
            let out = headings::with_anchors(events, InsertAnchor::Left, refs, links);
            &&& out.len() == events.len() + links.len()
            &&& out[i + m] == events[i]
            &&& forall|k: int|
                0 <= k < links.len() ==> out[(#[trigger] refs[k]).start_idx + 1 + k]
                    == EventView::<'a>::Html(links[k])
        }),
{
    let insert = InsertAnchor::Left;
    headings::lemma_with_anchors(events, insert, refs, links);
    assert forall|k: int| 0 <= k < m implies headings::anchor_position(insert, #[trigger] refs[k])
        <= i by {}
    assert forall|k: int| m <= k < links.len() implies headings::anchor_position(
        insert,
        #[trigger] refs[k],
    ) > i by {}
    lemma_count(insert, refs, links.len(), i, m);
    assert(headings::with_anchors(events, insert, refs, links)[i + headings::anchors_before(
        insert,
        refs,
        links.len(),
        i,
    )] == events[i]);
}

/// On the right, the link of a heading goes directly before its end: an event that is the `m`-th end
/// or stands behind `m` ends moves by their number.
pub proof fn lemma_links_right<'a>(
    events: Seq<EventView<'a>>,
    refs: Seq<RefView>,
    links: Seq<Seq<char>>,
    i: int,
    m: int,
)
    requires
        links.len() <= refs.len(),
        headings::refs_fit(refs, events.len()),
        headings::refs_in_order(refs),
        0 <= i < events.len(),
        0 <= m <= links.len(),
        forall|k: int| 0 <= k < m ==> (#[trigger] refs[k]).end_idx <= i,
        forall|k: int| m <= k < links.len() ==> (#[trigger] refs[k]).end_idx > i,
    ensures
        ({
            let out = headings::with_anchors(events, InsertAnchor::Right, refs, links);
            &&& out.len() == events.len() + links.len()
            &&& out[i + m] == events[i]
            &&& forall|k: int|
                0 <= k < links.len() ==> out[(#[trigger] refs[k]).end_idx + k]
                    == EventView::<'a>::Html(links[k])
        }),
{
    let insert = InsertAnchor::Right;
    headings::lemma_with_anchors(events, insert, refs, links);
    assert forall|k: int| 0 <= k < m implies headings::anchor_position(insert, #[trigger] refs[k])
        <= i by {}
    assert forall|k: int| m <= k < links.len() implies headings::anchor_position(
        insert,
        #[trigger] refs[k],
    ) > i by {}
    lemma_count(insert, refs, links.len(), i, m);
    assert(headings::with_anchors(events, insert, refs, links)[i + headings::anchors_before(
        insert,
        refs,
        links.len(),
        i,
    )] == events[i]);
}

} // verus!
