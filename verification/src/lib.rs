//! Extraction of readable text from HTML as Markdown-like plain text.
//!
//! The crate offers two routes from markup to text. The streaming route
//! tokenizes characters into flat tag events, keeps those of the main content
//! region and renders the depth-stamped events. The tree route renders a
//! document held as an arena of nodes, and also collects hyperlink targets.
use vstd::prelude::*;

pub mod deferred;
pub mod dom;
pub mod filter;
pub mod links;
pub mod markup;
pub mod parse;
pub mod render;
pub mod stream;
pub mod tag;
pub mod text;
pub mod tokenizer;
pub mod traversal;

pub use links::collect_links;
pub use parse::build_dom;
pub use render::wiki;
pub use text::collapse_whitespace;

verus! {

/// Extracts the page from markup: tokenizes it and filters the tags.
pub fn extract(html: &str) -> (page: tag::Page)
    ensures
        page@ == filter::filtered(tokenizer::tokens(html@)),
{
    filter::filter_tags(tokenizer::tokenize(html))
}

/// Turns markup into text: the title, if any, and the main content region
/// as Markdown.
pub fn markdown(html: &str) -> (text: String)
    ensures
        text@ == stream::page_text(filter::filtered(tokenizer::tokens(html@))),
{
    let page = extract(html);
    stream::render_page(&page)
}

} // verus!
