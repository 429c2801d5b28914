//! What a page is rendered with.

use crate::syntaxes::Config;
use crate::links::{InternalLinks, ResolvedView};
use vstd::prelude::*;

verus! {

/// Where the anchor link of a heading goes.
#[derive(Clone, Copy, PartialEq, Eq, Structural)]
pub enum InsertAnchor {
    Left,
    Right,
    Never,
}

/// What a page is rendered with.
pub struct RenderContext<'a> {
    pub config: &'a Config,
    /// The address of the page.
    pub current_page_permalink: &'a str,
    pub insert_anchor: InsertAnchor,
}

/// What the rendering of a page depends on, besides its events.
pub struct PageView {
    pub config: Config,
    pub permalink: Seq<char>,
    pub insert_anchor: InsertAnchor,
    pub links: Seq<(Seq<char>, ResolvedView)>,
}

/// The page that is rendered in a context, its internal links resolved by `links`.
pub open spec fn page_view(context: &RenderContext, links: &InternalLinks) -> PageView {
    PageView {
        config: *context.config,
        permalink: context.current_page_permalink@,
        insert_anchor: context.insert_anchor,
        links: links@,
    }
}

} // verus!
