//! The link extractor: the one collaborator that is pure computation — it
//! turns a fetched listing body into the ordered sequence of anchor links.
//! The HTML parsing itself is done by the `scraper` crate behind a trusted
//! wrapper; everything downstream consumes plain `Entry` values.
use vstd::prelude::*;

use crate::scanner::Entry;

verus! {

/// The links an HTML body contains, in document order: for each anchor its
/// `href` and, where the extractor surfaces one, its size-column text.
/// What this sequence is for a given body is determined by the HTML parser;
/// it is a function of the body text alone.
pub uninterp spec fn links_of(body: Seq<char>) -> Seq<(Seq<char>, Option<Seq<char>>)>;

/// The plain content of an entry list, for stating what an extractor
/// returned.
pub open spec fn entry_views(s: Seq<Entry>) -> Seq<(Seq<char>, Option<Seq<char>>)> {
    s.map_values(|e: Entry| (e@.href, e@.size_text))
}

/// Relies on scraper's `Html::parse_document`, `Selector::parse`,
/// `Html::select` and `Element::attr`: parses the body and returns the
/// `href` attribute of each anchor element, in document order — a pure
/// function of the body text.  Anchors without an `href` yield nothing, and
/// this extractor surfaces no size column.
#[verifier::external_body]
pub fn extract_links(body: &str) -> (r: Vec<Entry>)
    ensures
        entry_views(r@) == links_of(body@),
{
    let mut out = Vec::new();
    let document = scraper::Html::parse_document(body);
    if let Ok(selector) = scraper::Selector::parse("a") {
        for element in document.select(&selector) {
            if let Some(href) = element.value().attr("href") {
                out.push(Entry { href: href.to_string(), size_text: None });
            }
        }
    }
    out
}

} // verus!
