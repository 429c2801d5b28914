//! Links: what kind of thing a link leads to, and the destination that it gets in the page.

use crate::cmark::LinkKind;
use crate::error::{Error, ErrorView};
use crate::text;
use vstd::prelude::*;

verus! {

// ---------------------------------------------------------------------------------------------
// Kinds of links

/// A character of a scheme: a digit, an ASCII letter or a hyphen.
pub open spec fn is_schema_char(c: char) -> bool {
    ('0' <= c && c <= '9') || ('A' <= c && c <= 'Z') || ('a' <= c && c <= 'z') || c == '-'
}

/// The first `n` characters of `s` are a scheme, and a colon follows.
pub open spec fn schema_ends_at(s: Seq<char>, n: int) -> bool {
    &&& 0 < n < s.len()
    &&& s[n] == ':'
    &&& forall|i: int| 0 <= i < n ==> is_schema_char(#[trigger] s[i])
}

/// `s` begins with something that looks like a scheme: one or more characters of a scheme and a
/// colon.
pub open spec fn has_schema(s: Seq<char>) -> bool {
    exists|n: int| schema_ends_at(s, n)
}

/// A link to a file in the directory of the page.
pub open spec fn is_colocated(link: Seq<char>) -> bool {
    !link.contains('/') && !has_schema(link)
}

/// A link with an HTTP or HTTPS scheme.
pub open spec fn is_external(link: Seq<char>) -> bool {
    text::starts_with(link, "http:"@) || text::starts_with(link, "https:"@)
}

/// A link to a page of the site, written with the path of its source.
pub open spec fn is_internal(link: Seq<char>) -> bool {
    text::starts_with(link, "@/"@)
}

/// A link to a page of the site that is written in the way of earlier versions.
pub open spec fn is_old_internal(link: Seq<char>) -> bool {
    text::starts_with(link, "./"@) && text::contains(link, ".md"@)
}

fn in_schema(c: char) -> (r: bool)
    ensures
        r == is_schema_char(c),
{
    ('0' <= c && c <= '9') || ('A' <= c && c <= 'Z') || ('a' <= c && c <= 'z') || c == '-'
}

/// Returns whether the given string starts with a schema.
///
/// Although there exists [a list of registered URI schemes][uri-schemes], a link may use arbitrary,
/// private schemes. This function checks if the given string starts with something that just looks
/// like a scheme, i.e., a case-insensitive identifier followed by a colon.
///
/// [uri-schemes]: https://www.iana.org/assignments/uri-schemes/uri-schemes.xhtml
pub fn starts_with_schema(s: &str) -> (r: bool)
    ensures
        r == has_schema(s@),
{
    let v = text::chars_of(s);
    let mut n: usize = 0;
    while n < v.len() && in_schema(v[n])
        invariant
            n <= v@.len(),
            forall|i: int| 0 <= i < n ==> is_schema_char(#[trigger] v@[i]),
        decreases v@.len() - n,
    {
        n = n + 1;
    }
    let r = n > 0 && n < v.len() && v[n] == ':';
    proof {
        if r {
            assert(schema_ends_at(s@, n as int));
        } else if has_schema(s@) {
            let m = choose|m: int| schema_ends_at(s@, m);
            if m < n {
                assert(is_schema_char(v@[m]));
            } else if n < m {
                assert(is_schema_char(s@[n as int]));
            }
        }
    }
    r
}

/// Returns whether the link is to a file in the same directory: it is a filename only.
pub fn is_colocated_asset_link(link: &str) -> (r: bool)
    ensures
        r == is_colocated(link@),
{
    let v = text::chars_of(link);
    let mut i: usize = 0;
    while i < v.len()
        invariant
            v@ == link@,
            i <= v@.len(),
            forall|j: int| 0 <= j < i ==> v@[j] != '/',
        decreases v@.len() - i,
    {
        if v[i] == '/' {
            assert(link@[i as int] == '/');
            return false;
        }
        i = i + 1;
    }
    !starts_with_schema(link)
}

/// Returns whether a link starts with an HTTP(s) scheme.
pub fn is_external_link(link: &str) -> (r: bool)
    ensures
        r == is_external(link@),
{
    text::starts_with_text(link, "http:") || text::starts_with_text(link, "https:")
}

/// Returns whether a link leads to a page of the site by the path of its source.
pub fn is_internal_link(link: &str) -> (r: bool)
    ensures
        r == is_internal(link@),
{
    text::starts_with_text(link, "@/")
}

/// Returns whether a link to a page of the site is written in the way of earlier versions.
pub fn is_old_internal_link(link: &str) -> (r: bool)
    ensures
        r == is_old_internal(link@),
{
    text::starts_with_text(link, "./") && text::contains_text(link, ".md")
}

// ---------------------------------------------------------------------------------------------
// Laws of the kinds of links

/// Whether a string starts with a scheme does not depend on the case of its ASCII letters.
pub proof fn lemma_schema_ignores_case(a: Seq<char>, b: Seq<char>)
    requires
        text::same_but_case(a, b),
    ensures
        has_schema(a) == has_schema(b),
{
    lemma_schema_keeps(a, b);
    assert(text::same_but_case(b, a)) by {
        assert forall|i: int| 0 <= i < b.len() implies text::ascii_lower(
            #[trigger] b[i],
        ) == text::ascii_lower(a[i]) by {
            assert(text::ascii_lower(a[i]) == text::ascii_lower(
                b[i],
            ));
        }
    }
    lemma_schema_keeps(b, a);
}

proof fn lemma_schema_keeps(a: Seq<char>, b: Seq<char>)
    requires
        text::same_but_case(a, b),
    ensures
        has_schema(a) ==> has_schema(b),
{
    if has_schema(a) {
        let n = choose|n: int| schema_ends_at(a, n);
        assert(text::ascii_lower(a[n]) == text::ascii_lower(b[n]));
        assert forall|i: int| 0 <= i < n implies is_schema_char(#[trigger] b[i]) by {
            assert(is_schema_char(a[i]));
            assert(text::ascii_lower(a[i]) == text::ascii_lower(
                b[i],
            ));
        }
        assert(schema_ends_at(b, n));
    }
}

/// An external link is neither a link to a page of the site nor a link to a file beside the page.
pub proof fn lemma_external_is_not_local(link: Seq<char>)
    requires
        is_external(link),
    ensures
        has_schema(link),
        !is_colocated(link),
        !is_internal(link),
{
    reveal_strlit("http:");
    reveal_strlit("https:");
    reveal_strlit("@/");
    if text::starts_with(link, "http:"@) {
        let s = link.subrange(0, 5);
        assert(s[0] == 'h' && link[0] == s[0]);
        assert(s[1] == 't' && link[1] == s[1]);
        assert(s[2] == 't' && link[2] == s[2]);
        assert(s[3] == 'p' && link[3] == s[3]);
        assert(s[4] == ':' && link[4] == s[4]);
        assert(schema_ends_at(link, 4));
    } else {
        let s = link.subrange(0, 6);
        assert(s[0] == 'h' && link[0] == s[0]);
        assert(s[1] == 't' && link[1] == s[1]);
        assert(s[2] == 't' && link[2] == s[2]);
        assert(s[3] == 'p' && link[3] == s[3]);
        assert(s[4] == 's' && link[4] == s[4]);
        assert(s[5] == ':' && link[5] == s[5]);
        assert(schema_ends_at(link, 5));
    }
    if is_internal(link) {
        assert(link.subrange(0, 2)[0] == link[0]);
        assert("@/"@[0] == '@');
    }
}

// ---------------------------------------------------------------------------------------------
// Destinations

/// Where an internal link leads.
#[derive(Debug)]
pub struct ResolvedLink {
    /// The address of the page, with the anchor if the link has one.
    pub permalink: String,
    /// The path of the source of the page and the anchor, if the link has one.
    pub anchor: Option<(String, String)>,
}

/// What a `ResolvedLink` holds.
pub struct ResolvedView {
    pub permalink: Seq<char>,
    pub anchor: Option<(Seq<char>, Seq<char>)>,
}

impl View for ResolvedLink {
    type V = ResolvedView;

    open spec fn view(&self) -> ResolvedView {
        ResolvedView {
            permalink: self.permalink@,
            anchor: match self.anchor {
                Some((path, anchor)) => Some((path@, anchor@)),
                None => None,
            },
        }
    }
}

/// The texts of a list of pairs.
pub open spec fn pair_texts(v: Seq<(String, String)>) -> Seq<(Seq<char>, Seq<char>)> {
    v.map_values(|p: (String, String)| (p.0@, p.1@))
}

/// Where the internal links of a page lead. A link that is not listed leads nowhere.
pub struct InternalLinks {
    pub entries: Vec<(String, ResolvedLink)>,
}

impl View for InternalLinks {
    type V = Seq<(Seq<char>, ResolvedView)>;

    open spec fn view(&self) -> Seq<(Seq<char>, ResolvedView)> {
        self.entries@.map_values(|e: (String, ResolvedLink)| (e.0@, e.1@))
    }
}

/// Where a link leads by a list of links: what its first entry says.
pub open spec fn link_target(links: Seq<(Seq<char>, ResolvedView)>, link: Seq<char>) -> Option<
    ResolvedView,
>
    decreases links.len(),
{
    if links.len() == 0 {
        None
    } else if links[0].0 == link {
        Some(links[0].1)
    } else {
        link_target(links.skip(1), link)
    }
}

impl InternalLinks {
    /// Where a link leads.
    pub fn resolve(&self, link: &str) -> (r: Option<&ResolvedLink>)
        ensures
            match r {
                Some(target) => link_target(self@, link@) == Some(target@),
                None => link_target(self@, link@) is None,
            },
    {
        let mut i: usize = 0;
        let ghost all = self@;
        assert(all.skip(0) =~= all);
        while i < self.entries.len()
            invariant
                i <= self.entries@.len(),
                all == self@,
                link_target(all, link@) == link_target(all.skip(i as int), link@),
            decreases self.entries@.len() - i,
        {
            assert(all.skip(i as int)[0] == all[i as int]);
            assert(all.skip(i as int).skip(1) =~= all.skip(i + 1));
            if text::same_text(self.entries[i].0.as_str(), link) {
                return Some(&self.entries[i].1);
            }
            i = i + 1;
        }
        None
    }
}

/// The destination that a link gets in a page: an email address stays as it is; an internal link
/// becomes the address that it leads to, and is an error if it leads nowhere; a file beside the
/// page gets the address of the page before it; any other link stays as it is.
pub open spec fn fixed_link(
    kind: LinkKind,
    link: Seq<char>,
    page: Seq<char>,
    links: Seq<(Seq<char>, ResolvedView)>,
) -> Result<Seq<char>, ErrorView> {
    if kind is Email {
        Ok(link)
    } else if is_internal(link) {
        match link_target(links, link) {
            Some(target) => Ok(target.permalink),
            None => Err(ErrorView::LinkNotFound(link)),
        }
    } else if is_colocated(link) {
        Ok(page + link)
    } else {
        Ok(link)
    }
}

/// The anchor on another page that a link needs.
pub open spec fn needed_anchor(
    kind: LinkKind,
    link: Seq<char>,
    links: Seq<(Seq<char>, ResolvedView)>,
) -> Seq<(Seq<char>, Seq<char>)> {
    if !(kind is Email) && is_internal(link) {
        match link_target(links, link) {
            Some(target) => match target.anchor {
                Some(pair) => seq![pair],
                None => seq![],
            },
            None => seq![],
        }
    } else {
        seq![]
    }
}

/// The external destination of a link.
pub open spec fn external_target(kind: LinkKind, link: Seq<char>) -> Seq<Seq<char>> {
    if !(kind is Email) && is_external(link) {
        seq![link]
    } else {
        seq![]
    }
}

/// Gives a link its destination in the page, and notes the anchor that it needs on another page
/// and the external address that it leads to.
pub fn fix_link(
    link_type: &LinkKind,
    link: &str,
    current_page_permalink: &str,
    links: &InternalLinks,
    internal_links_with_anchors: &mut Vec<(String, String)>,
    external_links: &mut Vec<String>,
) -> (r: Result<String, Error>)
    ensures
        match r {
            Ok(fixed) => fixed_link(*link_type, link@, current_page_permalink@, links@) == Ok::<
                Seq<char>,
                ErrorView,
            >(fixed@),
            Err(e) => fixed_link(*link_type, link@, current_page_permalink@, links@) == Err::<
                Seq<char>,
                ErrorView,
            >(e@),
        },
        pair_texts(final(internal_links_with_anchors)@) == pair_texts(
            old(internal_links_with_anchors)@,
        ) + needed_anchor(*link_type, link@, links@),
        text::texts(final(external_links)@) == text::texts(old(external_links)@)
            + external_target(*link_type, link@),
{
    let ghost internal_before = pair_texts(internal_links_with_anchors@);
    let ghost external_before = text::texts(external_links@);
    assert(internal_before + seq![] =~= internal_before);
    assert(external_before + seq![] =~= external_before);
    proof {
        if is_external(link@) {
            lemma_external_is_not_local(link@);
        }
    }
    if let LinkKind::Email = link_type {
        return Ok(link.to_owned());
    }
    if is_internal_link(link) {
        match links.resolve(link) {
            Some(target) => {
                if let Some(pair) = &target.anchor {
                    internal_links_with_anchors.push((pair.0.clone(), pair.1.clone()));
                    assert(pair_texts(internal_links_with_anchors@) =~= internal_before + seq![
                        (pair.0@, pair.1@),
                    ]);
                }
                Ok(target.permalink.clone())
            },
            None => Err(Error::LinkNotFound(link.to_owned())),
        }
    } else if is_colocated_asset_link(link) {
        let mut fixed = String::from_str(current_page_permalink);
        fixed.append(link);
        Ok(fixed)
    } else {
        if is_external_link(link) {
            external_links.push(link.to_owned());
            assert(text::texts(external_links@) =~= external_before + seq![link@]);
        }
        Ok(link.to_owned())
    }
}

// ---------------------------------------------------------------------------------------------
// Laws of the destinations

/// One more entry matters only to a link that led nowhere before.
pub proof fn lemma_link_target_push(
    links: Seq<(Seq<char>, ResolvedView)>,
    entry: (Seq<char>, ResolvedView),
    link: Seq<char>,
)
    ensures
        link_target(links.push(entry), link) == (match link_target(links, link) {
            Some(target) => Some(target),
            None => if entry.0 == link {
                Some(entry.1)
            } else {
                None
            },
        }),
    decreases links.len(),
{
    let more = links.push(entry);
    if links.len() == 0 {
        assert(more[0] == entry);
        assert(more.skip(1) =~= seq![]);
    } else {
        assert(more[0] == links[0]);
        assert(more.skip(1) =~= links.skip(1).push(entry));
        lemma_link_target_push(links.skip(1), entry, link);
    }
}

/// Only an internal link can be an error, and it is one exactly if it leads nowhere.
pub proof fn lemma_only_lost_links_fail(
    kind: LinkKind,
    link: Seq<char>,
    page: Seq<char>,
    links: Seq<(Seq<char>, ResolvedView)>,
)
    ensures
        fixed_link(kind, link, page, links) is Err <==> !(kind is Email) && is_internal(link)
            && link_target(links, link) is None,
        fixed_link(kind, link, page, links) matches Err(e) ==> e == ErrorView::LinkNotFound(link),
{
}

} // verus!
