//! Rendering of Markdown pages to HTML.

pub mod cmark;
pub mod code_block;
pub mod context;
pub mod error;
pub mod headings;
pub mod laws;
pub mod links;
pub mod markdown;
pub mod syntaxes;
pub mod text;
pub mod transform;
