//! Resolution of one verified extension: the download link on its landing
//! page.

use vstd::prelude::*;
use crate::catalog::{known_selector, LINK_SELECTOR};
use crate::error::StageError;

verus! {

/// The `href` attribute of each element that `selector` picks in the HTML
/// document `document`, in the order in which scraper's selection yields
/// them; none where the element has none.
pub uninterp spec fn selected_hrefs(document: Seq<char>, selector: Seq<char>) -> Seq<Option<Seq<char>>>;

/// The views of a vector of optional strings.
pub open spec fn optional_views(v: Seq<Option<String>>) -> Seq<Option<Seq<char>>> {
    v.map_values(|o: Option<String>| match o {
        Some(s) => Some(s@),
        None => None,
    })
}

/// Relies on `scraper::Html::parse_document`, `scraper::Selector::parse`,
/// `scraper::Html::select` and `scraper::ElementRef::attr`: the `href` of
/// every element that the selector picks, in the order in which the
/// selection yields them. Both selectors
/// of this library parse.
#[verifier::external_body]
fn select_hrefs(document: &str, selector: &str) -> (r: Vec<Option<String>>)
    requires
        known_selector(selector@),
    ensures
        optional_views(r@) == selected_hrefs(document@, selector@),
{
    let html = scraper::Html::parse_document(document);
    let selector = scraper::Selector::parse(selector).unwrap();
    html.select(&selector).map(|e| e.attr("href").map(|h| h.to_string())).collect()
}

/// Some candidate link has no `href`.
pub open spec fn any_missing(hrefs: Seq<Option<Seq<char>>>) -> bool {
    exists|i: int| 0 <= i < hrefs.len() && hrefs[i] is None
}

/// The link kept from the candidates when none is missing: the last one, or
/// none when there are no candidates.
pub open spec fn kept_link(hrefs: Seq<Option<Seq<char>>>) -> Option<Seq<char>> {
    if hrefs.len() == 0 {
        None
    } else {
        hrefs.last()
    }
}

/// The download link of `extension` among the candidate links of its
/// landing page: a candidate without `href` is an error, and of the others
/// the last one is kept.
pub fn link_from_candidates(extension: &String, hrefs: &Vec<Option<String>>) -> (r: Result<Option<String>, StageError>)
    ensures
        r is Err <==> any_missing(optional_views(hrefs@)),
        r matches Err(e) ==> e matches StageError::MissingLink { extension: x } && x@ == extension@,
        r matches Ok(o) ==> match o {
            Some(s) => kept_link(optional_views(hrefs@)) == Some(s@),
            None => kept_link(optional_views(hrefs@)) is None,
        },
{
    let ghost views = optional_views(hrefs@);
    let mut link: Option<String> = None;
    let mut i: usize = 0;
    while i < hrefs.len()
        invariant
            i <= hrefs@.len(),
            views == optional_views(hrefs@),
            forall|j: int| 0 <= j < i ==> views[j] is Some,
            i == 0 ==> link is None,
            i > 0 ==> (link matches Some(s) && views[i - 1] == Some(s@)),
        decreases hrefs@.len() - i,
    {
        match &hrefs[i] {
            None => {
                assert(views[i as int] is None);
                return Err(StageError::MissingLink { extension: extension.clone() });
            },
            Some(h) => {
                link = Some(h.clone());
            },
        }
        i = i + 1;
    }
    Ok(link)
}

/// The download link of `extension` on its landing page `body`.
pub fn link_from_landing_page(extension: &String, body: &str) -> (r: Result<Option<String>, StageError>)
    ensures
        r is Err <==> any_missing(selected_hrefs(body@, LINK_SELECTOR@)),
        r matches Err(e) ==> e matches StageError::MissingLink { extension: x } && x@ == extension@,
        r matches Ok(o) ==> match o {
            Some(s) => kept_link(selected_hrefs(body@, LINK_SELECTOR@)) == Some(s@),
            None => kept_link(selected_hrefs(body@, LINK_SELECTOR@)) is None,
        },
{
    let hrefs = select_hrefs(body, LINK_SELECTOR);
    link_from_candidates(extension, &hrefs)
}

} // verus!
