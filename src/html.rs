use scraper::{ElementRef, Html, Selector};
use vstd::prelude::*;

verus! {

/// What the extraction reads of one element of a parsed document.
#[derive(Debug)]
pub struct Element {
    /// The markup inside the element.
    pub inner_html: String,
    /// The text nodes below the element, in document order.
    pub text: Vec<String>,
    /// The `href` attribute.
    pub href: Option<String>,
    /// The `name` attribute.
    pub name: Option<String>,
    /// The node right after the element, where that node is text.
    pub next_text: Option<String>,
    /// The markup inside the first element that follows this one among its siblings.
    pub next_element_html: Option<String>,
}

/// The elements of the HTML document `document` that the CSS selector `selector` matches,
/// in document order; none where the selector cannot be parsed.
pub uninterp spec fn selection(document: Seq<char>, selector: Seq<char>) -> Option<Seq<Element>>;

/// For each element that `outer` matches in `document`, in document order, the elements
/// below it that `inner` matches; none where a selector cannot be parsed.
pub uninterp spec fn nested_selection(document: Seq<char>, outer: Seq<char>, inner: Seq<char>) -> Option<
    Seq<Seq<Element>>,
>;

/// Relies on scraper: `Html::parse_document`, `Selector::parse` and `Html::select`, each match
/// copied into an `Element`.
#[verifier::external_body]
pub(crate) fn select(document: &str, selector: &str) -> (r: Option<Vec<Element>>)
    ensures
        r matches Some(v) ==> selection(document@, selector@) == Some(v@),
        r is None ==> selection(document@, selector@) is None,
{
    let sel = Selector::parse(selector).ok()?;
    let html = Html::parse_document(document);
    Some(html.select(&sel).map(|e| Element {
        inner_html: e.inner_html(),
        text: e.text().map(String::from).collect(),
        href: e.attr("href").map(Into::into),
        name: e.attr("name").map(Into::into),
        next_text: e.next_sibling().and_then(|n| Some(n.value().as_text()?.to_string())),
        next_element_html: e.next_siblings().find_map(ElementRef::wrap).map(|x| x.inner_html()),
    }).collect())
}

/// Relies on scraper: `Html::parse_document`, `Selector::parse`, `Html::select` for `outer` and
/// `ElementRef::select` for `inner` within each match.
#[verifier::external_body]
pub(crate) fn select_nested(document: &str, outer: &str, inner: &str) -> (r: Option<Vec<Vec<Element>>>)
    ensures
        r matches Some(v) ==> nested_selection(document@, outer@, inner@) == Some(v@.map_values(|x: Vec<Element>| x@)),
        r is None ==> nested_selection(document@, outer@, inner@) is None,
{
    let o = Selector::parse(outer).ok()?;
    let i = Selector::parse(inner).ok()?;
    let html = Html::parse_document(document);
    Some(html.select(&o).map(|row| row.select(&i).map(|e| Element {
        inner_html: e.inner_html(),
        text: e.text().map(String::from).collect(),
        href: e.attr("href").map(Into::into),
        name: e.attr("name").map(Into::into),
        next_text: e.next_sibling().and_then(|n| Some(n.value().as_text()?.to_string())),
        next_element_html: e.next_siblings().find_map(ElementRef::wrap).map(|x| x.inner_html()),
    }).collect()).collect())
}

} // verus!
