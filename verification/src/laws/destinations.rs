//! Laws of links: what a link is, where it leads, and what is noted of it.

use crate::cmark::LinkKind;
use crate::error::ErrorView;
use crate::laws::strings;
use crate::links;
use crate::links::ResolvedView;
use crate::text;
use vstd::prelude::*;

verus! {

// ---------------------------------------------------------------------------------------------
// What a link is

/// A name that can stand before the colon of a scheme: ASCII letters, digits and hyphens.
pub open spec fn is_scheme_name(name: Seq<char>) -> bool {
    name.len() > 0 && forall|i: int|
        0 <= i < name.len() ==> {
            ||| '0' <= (#[trigger] name[i]) && name[i] <= '9'
            ||| 'A' <= name[i] && name[i] <= 'Z'
            ||| 'a' <= name[i] && name[i] <= 'z'
            ||| name[i] == '-'
        }
}

/// A link is a scheme, a colon and something behind it.
pub open spec fn has_scheme(link: Seq<char>) -> bool {
    exists|name: Seq<char>, rest: Seq<char>|
        is_scheme_name(name) && link == #[trigger] (name + seq![':'] + rest)
}

/// A link has a schema exactly if it is a scheme, a colon and something behind it.
pub proof fn lemma_schema(link: Seq<char>)
    ensures
        links::has_schema(link) <==> has_scheme(link),
{
    if links::has_schema(link) {
        let n = choose|n: int| links::schema_ends_at(link, n);
        let name = link.take(n);
        let rest = link.skip(n + 1);
        assert forall|i: int| 0 <= i < name.len() implies {
            ||| '0' <= (#[trigger] name[i]) && name[i] <= '9'
            ||| 'A' <= name[i] && name[i] <= 'Z'
            ||| 'a' <= name[i] && name[i] <= 'z'
            ||| name[i] == '-'
        } by {
            assert(links::is_schema_char(link[i]));
        }
        assert(is_scheme_name(name));
        assert(link =~= name + seq![':'] + rest);
    }
    if has_scheme(link) {
        let (name, rest) = choose|name: Seq<char>, rest: Seq<char>|
            is_scheme_name(name) && link == #[trigger] (name + seq![':'] + rest);
        let n = name.len() as int;
        assert forall|i: int| 0 <= i < n implies links::is_schema_char(#[trigger] link[i]) by {
            assert(link[i] == name[i]);
        }
        assert(links::schema_ends_at(link, n));
    }
}

/// A file beside the page is named without a slash and without a scheme, and everything so named is
/// one.
pub proof fn lemma_colocated(link: Seq<char>)
    ensures
        links::is_colocated(link) <==> !has_scheme(link) && forall|i: int|
            0 <= i < link.len() ==> #[trigger] link[i] != '/',
{
    lemma_schema(link);
    if exists|i: int| 0 <= i < link.len() && #[trigger] link[i] == '/' {
        assert(link.contains('/'));
    }
}

/// An external link begins with `http:` or `https:`, an internal one with `@/`, and an internal one in
/// the old style with `./` and has `.md` in it. Nothing else is one.
pub proof fn lemma_kinds(link: Seq<char>)
    ensures
        links::is_external(link) <==> exists|rest: Seq<char>|
            link == #[trigger] ("http:"@ + rest) || link == "https:"@ + rest,
        links::is_internal(link) <==> exists|rest: Seq<char>| link == #[trigger] ("@/"@ + rest),
        links::is_old_internal(link) <==> (exists|rest: Seq<char>|
            link == #[trigger] ("./"@ + rest)) && exists|a: Seq<char>, b: Seq<char>|
            link == #[trigger] (a + ".md"@ + b),
{
    strings::lemma_starts_with(link, "http:"@);
    strings::lemma_starts_with(link, "https:"@);
    strings::lemma_starts_with(link, "@/"@);
    strings::lemma_starts_with(link, "./"@);
    strings::lemma_contains(link, ".md"@);
    if text::starts_with(link, "https:"@) {
        let rest = choose|rest: Seq<char>| link == #[trigger] ("https:"@ + rest);
        let other = "http:"@ + rest;
        assert(link == other || link == "https:"@ + rest);
    }
}

// ---------------------------------------------------------------------------------------------
// Where a link leads

/// An email address keeps its text.
pub proof fn lemma_email_kept(
    link: Seq<char>,
    page: Seq<char>,
    table: Seq<(Seq<char>, ResolvedView)>,
)
    ensures
        links::fixed_link(LinkKind::Email, link, page, table) == Ok::<Seq<char>, ErrorView>(link),
        links::needed_anchor(LinkKind::Email, link, table).len() == 0,
        links::external_target(LinkKind::Email, link).len() == 0,
{
}

/// A link that is no internal one and has a slash or a scheme in it keeps its destination character
/// for character, on whatever page it stands.
pub proof fn lemma_other_links_kept(
    kind: LinkKind,
    link: Seq<char>,
    page: Seq<char>,
    table: Seq<(Seq<char>, ResolvedView)>,
)
    requires
        forall|rest: Seq<char>| link != #[trigger] ("@/"@ + rest),
        link.contains('/') || has_scheme(link),
    ensures
        links::fixed_link(kind, link, page, table) == Ok::<Seq<char>, ErrorView>(link),
        links::needed_anchor(kind, link, table).len() == 0,
{
    lemma_kinds(link);
    lemma_colocated(link);
}

/// A file beside the page, and only that, gets the address of the page before it.
pub proof fn lemma_files_get_the_address(
    kind: LinkKind,
    link: Seq<char>,
    page: Seq<char>,
    table: Seq<(Seq<char>, ResolvedView)>,
)
    requires
        !(kind is Email),
        !link.contains('/'),
        !has_scheme(link),
    ensures
        links::fixed_link(kind, link, page, table) == Ok::<Seq<char>, ErrorView>(page + link),
        links::needed_anchor(kind, link, table).len() == 0,
        links::external_target(kind, link).len() == 0,
{
    lemma_kinds(link);
    lemma_colocated(link);
    reveal_strlit("@/");
    if links::is_internal(link) {
        let rest = choose|rest: Seq<char>| link == #[trigger] ("@/"@ + rest);
        assert(link[1] == '/');
    }
    if links::is_external(link) {
        links::lemma_external_is_not_local(link);
    }
}

/// An internal link leads where the table says, however the page is called; it needs the anchor that
/// the table names, and no other. If the table does not list it, it is an error that names it.
pub proof fn lemma_internal_links(
    kind: LinkKind,
    rest: Seq<char>,
    page: Seq<char>,
    table: Seq<(Seq<char>, ResolvedView)>,
)
    requires
        !(kind is Email),
    ensures
        ({
            let link = "@/"@ + rest;
            let fixed = links::fixed_link(kind, link, page, table);
            let needed = links::needed_anchor(kind, link, table);
            &&& forall|k: int|
                #![trigger table[k]]
                0 <= k < table.len() && table[k].0 == link && (forall|j: int|
                    0 <= j < k ==> (#[trigger] table[j]).0 != link) ==> {
                    &&& fixed == Ok::<Seq<char>, ErrorView>(table[k].1.permalink)
                    &&& needed == (match table[k].1.anchor {
                        Some(pair) => seq![pair],
                        None => seq![],
                    })
                }
            &&& (forall|k: int| 0 <= k < table.len() ==> (#[trigger] table[k]).0 != link) ==> {
                &&& fixed == Err::<Seq<char>, ErrorView>(ErrorView::LinkNotFound(link))
                &&& needed.len() == 0
            }
            &&& links::external_target(kind, link).len() == 0
        }),
{
    let link = "@/"@ + rest;
    lemma_kinds(link);
    assert(links::is_internal(link));
    lemma_link_target(table, link);
    if links::is_external(link) {
        links::lemma_external_is_not_local(link);
    }
}

/// What the table says of a link is what the first entry with its text says, and nothing exactly if
/// there is none.
pub proof fn lemma_link_target(table: Seq<(Seq<char>, ResolvedView)>, link: Seq<char>)
    ensures
        forall|k: int|
            #![trigger table[k]]
            0 <= k < table.len() && table[k].0 == link && (forall|j: int|
                0 <= j < k ==> (#[trigger] table[j]).0 != link) ==> links::link_target(table, link)
                == Some(table[k].1),
        (forall|k: int| 0 <= k < table.len() ==> (#[trigger] table[k]).0 != link)
            ==> links::link_target(table, link) is None,
    decreases table.len(),
{
    if table.len() > 0 && table[0].0 != link {
        let rest = table.skip(1);
        lemma_link_target(rest, link);
        assert forall|k: int|
            #![trigger table[k]]
            0 <= k < table.len() && table[k].0 == link && (forall|j: int|
                0 <= j < k ==> (#[trigger] table[j]).0 != link) implies links::link_target(
            table,
            link,
        ) == Some(table[k].1) by {
            assert(k > 0);
            assert(rest[k - 1] == table[k]);
            assert forall|j: int| 0 <= j < k - 1 implies (#[trigger] rest[j]).0 != link by {
                assert(rest[j] == table[j + 1]);
            }
        }
        if forall|k: int| 0 <= k < table.len() ==> (#[trigger] table[k]).0 != link {
            assert forall|k: int| 0 <= k < rest.len() implies (#[trigger] rest[k]).0 != link by {
                assert(rest[k] == table[k + 1]);
            }
        }
    }
}

/// The addresses that are noted as external are exactly those that begin with `http:` or `https:`, as
/// they are written.
pub proof fn lemma_external_noted(kind: LinkKind, link: Seq<char>)
    requires
        !(kind is Email),
    ensures
        (exists|rest: Seq<char>| link == #[trigger] ("http:"@ + rest) || link == "https:"@ + rest)
            ==> links::external_target(kind, link) == seq![link],
        (forall|rest: Seq<char>| link != #[trigger] ("http:"@ + rest) && link != "https:"@ + rest)
            ==> links::external_target(kind, link).len() == 0,
{
    lemma_kinds(link);
    if exists|rest: Seq<char>| link == #[trigger] ("http:"@ + rest) || link == "https:"@ + rest {
        assert(links::is_external(link));
    }
}

} // verus!
