//! The site catalog: which extensions it offers and where each one's landing
//! page is, and the intersection of the catalog with what the user asked for.

use vstd::prelude::*;
use crate::error::FatalError;
use crate::map::ExtensionMap;
use crate::text::{chars_of, has_prefix, occurs_at, string_of};

verus! {

/// The catalog document of the site.
pub const SITEMAP_URL: &'static str = "https://www.dwsamplefiles.com/post-sitemap.xml";

/// The start of every landing-page URL in the catalog.
pub const LANDING_PREFIX: &'static str = "https://www.dwsamplefiles.com/download-";

/// The pattern whose first group is the extension named by a landing-page URL.
pub const TOKEN_PATTERN: &'static str = r"https://www\.dwsamplefiles\.com/download-(.*?)-.*";

/// The CSS selector of the location nodes of the catalog.
pub const LOCATION_SELECTOR: &'static str = "loc";

/// The CSS selector of the download links of a landing page.
pub const LINK_SELECTOR: &'static str = ".download-manager a";

/// What the selectors of this library are.
pub open spec fn known_selector(selector: Seq<char>) -> bool {
    selector == LOCATION_SELECTOR@ || selector == LINK_SELECTOR@
}

/// The text nodes of each element that `selector` picks in the HTML
/// document `document`, element by element in the order in which scraper's
/// selection yields them.
pub uninterp spec fn selected_texts(document: Seq<char>, selector: Seq<char>) -> Seq<Seq<Seq<char>>>;

/// What replacing every match of `pattern` in `haystack` by `replacement`
/// gives.
pub uninterp spec fn regex_replace_all(pattern: Seq<char>, haystack: Seq<char>, replacement: Seq<char>) -> Seq<char>;

/// `text` is a landing-page URL naming `token`: the prefix, then `token`, a
/// hyphen and `rest`, all on one line, with no hyphen in `token`.
pub open spec fn landing_url(text: Seq<char>, token: Seq<char>, rest: Seq<char>) -> bool {
    &&& text == LANDING_PREFIX@ + token + seq!['-'] + rest
    &&& !token.contains('-')
    &&& !token.contains('\n')
    &&& !rest.contains('\n')
}

/// The views of a nested vector of strings.
pub open spec fn nested_view(v: Seq<Vec<String>>) -> Seq<Seq<Seq<char>>> {
    v.map_values(|inner: Vec<String>| inner@.map_values(|s: String| s@))
}

/// Relies on `scraper::Html::parse_document`, `scraper::Selector::parse` and
/// `scraper::Html::select`: the text nodes of every element that the selector
/// picks, in the order in which the selection yields them. Both selectors of this library parse.
#[verifier::external_body]
fn select_texts(document: &str, selector: &str) -> (r: Vec<Vec<String>>)
    requires
        known_selector(selector@),
    ensures
        nested_view(r@) == selected_texts(document@, selector@),
{
    let html = scraper::Html::parse_document(document);
    let selector = scraper::Selector::parse(selector).unwrap();
    html.select(&selector).map(|e| e.text().map(|t| t.to_string()).collect()).collect()
}

/// Relies on `regex::Regex::new` and `regex::Regex::replace_all`: the token
/// pattern compiles; with the replacement `$1`, a landing-page URL on one
/// line is replaced whole by the first group, which the lazy `(.*?)` makes
/// the text up to the first hyphen after the prefix.
#[verifier::external_body]
fn replace_all(pattern: &str, haystack: &str, replacement: &str) -> (r: String)
    requires
        pattern@ == TOKEN_PATTERN@,
    ensures
        r@ == regex_replace_all(pattern@, haystack@, replacement@),
        replacement@ == seq!['$', '1'] ==> forall|token: Seq<char>, rest: Seq<char>|
            landing_url(haystack@, token, rest) ==> r@ == token,
{
    regex::Regex::new(pattern).unwrap().replace_all(haystack, replacement).to_string()
}

/// Text fragments joined with one space between each two.
pub open spec fn joined(frags: Seq<Seq<char>>) -> Seq<char>
    decreases frags.len(),
{
    if frags.len() == 0 {
        Seq::empty()
    } else if frags.len() == 1 {
        frags[0]
    } else {
        joined(frags.drop_last()) + seq![' '] + frags.last()
    }
}

/// The extension that a catalog location names: for a landing-page URL, what
/// the token pattern captures; for any other text, none.
pub open spec fn extension_of(text: Seq<char>) -> Option<Seq<char>> {
    if has_prefix(text, LANDING_PREFIX@) {
        Some(regex_replace_all(TOKEN_PATTERN@, text, seq!['$', '1']))
    } else {
        None
    }
}

/// The catalog described by a sequence of location texts: each landing-page
/// URL is recorded under its extension, a later one replacing an earlier.
pub open spec fn catalog_of(texts: Seq<Seq<char>>) -> Map<Seq<char>, Seq<char>>
    decreases texts.len(),
{
    if texts.len() == 0 {
        Map::empty()
    } else {
        let m = catalog_of(texts.drop_last());
        match extension_of(texts.last()) {
            Some(t) => m.insert(t, texts.last()),
            None => m,
        }
    }
}

/// The location texts of a catalog whose nodes hold the given fragments.
pub open spec fn location_texts(nodes: Seq<Seq<Seq<char>>>) -> Seq<Seq<char>> {
    nodes.map_values(|frags: Seq<Seq<char>>| joined(frags))
}

/// The text fragments joined with one space between each two.
pub fn join_with_spaces(frags: &Vec<String>) -> (r: String)
    ensures
        r@ == joined(frags@.map_values(|s: String| s@)),
{
    let ghost views = frags@.map_values(|s: String| s@);
    let mut out: Vec<char> = Vec::new();
    let mut i: usize = 0;
    while i < frags.len()
        invariant
            i <= frags@.len(),
            views == frags@.map_values(|s: String| s@),
            out@ == joined(views.subrange(0, i as int)),
        decreases frags@.len() - i,
    {
        let cs = chars_of(frags[i].as_str());
        if i > 0 {
            out.push(' ');
        }
        let mut j: usize = 0;
        let ghost mid = out@;
        while j < cs.len()
            invariant
                j <= cs@.len(),
                out@ == mid + cs@.subrange(0, j as int),
            decreases cs@.len() - j,
        {
            out.push(cs[j]);
            j = j + 1;
            assert(out@ =~= mid + cs@.subrange(0, j as int));
        }
        assert(cs@.subrange(0, cs@.len() as int) =~= cs@);
        let ghost next = views.subrange(0, i + 1);
        assert(next.drop_last() =~= views.subrange(0, i as int));
        i = i + 1;
        if i > 1 {
            assert(out@ =~= joined(next.drop_last()) + seq![' '] + next.last());
        } else {
            assert(out@ =~= next[0]);
        }
    }
    assert(views.subrange(0, frags@.len() as int) =~= views);
    string_of(out.as_slice())
}

/// The extension that a catalog location names, if it is a landing-page URL.
pub fn extension_of_url(text: &str) -> (r: Option<String>)
    ensures
        r matches Some(t) ==> extension_of(text@) == Some(t@),
        r is None ==> extension_of(text@) is None,
        forall|token: Seq<char>, rest: Seq<char>| landing_url(text@, token, rest) ==> (r matches Some(
            t,
        ) && t@ == token),
{
    let cs = chars_of(text);
    let prefix = chars_of(LANDING_PREFIX);
    if !occurs_at(cs.as_slice(), 0, prefix.as_slice()) {
        assert(cs@.skip(0) =~= cs@);
        proof {
            assert forall|token: Seq<char>, rest: Seq<char>| landing_url(text@, token, rest) implies false by {
                assert(text@.subrange(0, LANDING_PREFIX@.len() as int) =~= LANDING_PREFIX@);
            }
        }
        return None;
    }
    assert(cs@.skip(0) =~= cs@);
    let dollar_one = string_of(&['$', '1']);
    assert(dollar_one@ =~= seq!['$', '1']);
    Some(replace_all(TOKEN_PATTERN, text, dollar_one.as_str()))
}

/// The catalog described by the text fragments of its location nodes.
pub fn catalog_from_locations(nodes: &Vec<Vec<String>>) -> (r: ExtensionMap)
    ensures
        r.wf(),
        r@ == catalog_of(location_texts(nested_view(nodes@))),
        forall|i: int, token: Seq<char>, rest: Seq<char>|
            0 <= i < nodes@.len() && #[trigger] landing_url(
                location_texts(nested_view(nodes@))[i],
                token,
                rest,
            ) ==> extension_of(location_texts(nested_view(nodes@))[i]) == Some(token),
{
    let ghost texts = location_texts(nested_view(nodes@));
    let mut catalog = ExtensionMap::new();
    let mut i: usize = 0;
    while i < nodes.len()
        invariant
            i <= nodes@.len(),
            texts == location_texts(nested_view(nodes@)),
            catalog.wf(),
            catalog@ == catalog_of(texts.subrange(0, i as int)),
            forall|j: int, token: Seq<char>, rest: Seq<char>|
                0 <= j < i && #[trigger] landing_url(texts[j], token, rest) ==> extension_of(
                    texts[j],
                ) == Some(token),
        decreases nodes@.len() - i,
    {
        let text = join_with_spaces(&nodes[i]);
        assert(text@ == texts[i as int]);
        let ghost next = texts.subrange(0, i + 1);
        assert(next.drop_last() =~= texts.subrange(0, i as int));
        match extension_of_url(text.as_str()) {
            Some(token) => {
                catalog.insert(token, text);
            },
            None => {},
        }
        i = i + 1;
    }
    assert(texts.subrange(0, nodes@.len() as int) =~= texts);
    catalog
}

/// The catalog described by the catalog document `body`.
pub fn catalog_from_sitemap(body: &str) -> (r: ExtensionMap)
    ensures
        r.wf(),
        r@ == catalog_of(location_texts(selected_texts(body@, LOCATION_SELECTOR@))),
        forall|i: int, token: Seq<char>, rest: Seq<char>|
            0 <= i < selected_texts(body@, LOCATION_SELECTOR@).len() && #[trigger] landing_url(
                location_texts(selected_texts(body@, LOCATION_SELECTOR@))[i],
                token,
                rest,
            ) ==> extension_of(location_texts(selected_texts(body@, LOCATION_SELECTOR@))[i])
                == Some(token),
{
    let nodes = select_texts(body, LOCATION_SELECTOR);
    catalog_from_locations(&nodes)
}

/// The requested tokens that the catalog does not offer, in request order.
pub open spec fn unsupported_of(requested: Seq<Seq<char>>, catalog: Map<Seq<char>, Seq<char>>) -> Seq<Seq<char>>
    decreases requested.len(),
{
    if requested.len() == 0 {
        Seq::empty()
    } else {
        let earlier = unsupported_of(requested.drop_last(), catalog);
        if catalog.contains_key(requested.last()) {
            earlier
        } else {
            earlier.push(requested.last())
        }
    }
}

/// The catalog restricted to the requested tokens.
pub open spec fn verified_of(requested: Seq<Seq<char>>, catalog: Map<Seq<char>, Seq<char>>) -> Map<Seq<char>, Seq<char>> {
    Map::new(|k: Seq<char>| requested.contains(k) && catalog.contains_key(k), |k: Seq<char>| catalog[k])
}

/// Some requested token is offered by the catalog.
pub open spec fn any_offered(requested: Seq<Seq<char>>, catalog: Map<Seq<char>, Seq<char>>) -> bool {
    exists|i: int| 0 <= i < requested.len() && catalog.contains_key(requested[i])
}

/// Checks the requested tokens against the catalog. The first part of the
/// result lists, in request order, each requested token that the catalog does
/// not offer (a warning each); the second is the catalog restricted to the
/// requested tokens, or `NoValidExtensions` when that leaves nothing.
pub fn validate(requested: &Vec<String>, catalog: &ExtensionMap) -> (r: (Vec<String>, Result<ExtensionMap, FatalError>))
    requires
        catalog.wf(),
    ensures
        r.0@.map_values(|t: String| t@) == unsupported_of(requested@.map_values(|t: String| t@), catalog@),
        r.1 is Err <==> !any_offered(requested@.map_values(|t: String| t@), catalog@),
        r.1 is Err ==> r.1 == Err::<ExtensionMap, FatalError>(FatalError::NoValidExtensions),
        r.1 matches Ok(v) ==> v.wf() && v@ == verified_of(requested@.map_values(|t: String| t@), catalog@)
            && v@ != Map::<Seq<char>, Seq<char>>::empty(),
{
    let ghost req = requested@.map_values(|t: String| t@);
    let mut unsupported: Vec<String> = Vec::new();
    let mut verified = ExtensionMap::new();
    let mut any = false;
    let mut i: usize = 0;
    while i < requested.len()
        invariant
            i <= requested@.len(),
            req == requested@.map_values(|t: String| t@),
            catalog.wf(),
            verified.wf(),
            verified@ == verified_of(req.subrange(0, i as int), catalog@),
            unsupported@.map_values(|t: String| t@) == unsupported_of(req.subrange(0, i as int), catalog@),
            any == any_offered(req.subrange(0, i as int), catalog@),
        decreases requested@.len() - i,
    {
        let token = &requested[i];
        let ghost before = req.subrange(0, i as int);
        let ghost next = req.subrange(0, i + 1);
        assert(next.drop_last() =~= before);
        assert(next.last() == token@);
        match catalog.get(token) {
            None => {
                let ghost old_un = unsupported@;
                unsupported.push(token.clone());
                assert(unsupported@.map_values(|t: String| t@) =~= old_un.map_values(|t: String| t@).push(token@));
                assert(verified_of(next, catalog@) =~= verified_of(before, catalog@)) by {
                    assert forall|k: Seq<char>| next.contains(k) && catalog@.contains_key(k) implies before.contains(k) by {
                        let j = choose|j: int| 0 <= j < next.len() && next[j] == k;
                        assert(j < i);
                        assert(before[j] == k);
                    }
                    assert forall|k: Seq<char>| before.contains(k) implies next.contains(k) by {
                        let j = choose|j: int| 0 <= j < before.len() && before[j] == k;
                        assert(next[j] == k);
                    }
                }
                assert(any_offered(next, catalog@) == any_offered(before, catalog@)) by {
                    if any_offered(next, catalog@) {
                        let j = choose|j: int| 0 <= j < next.len() && catalog@.contains_key(next[j]);
                        assert(j < i);
                        assert(before[j] == next[j]);
                    }
                    if any_offered(before, catalog@) {
                        let j = choose|j: int| 0 <= j < before.len() && catalog@.contains_key(before[j]);
                        assert(before[j] == next[j]);
                    }
                }
            },
            Some(url) => {
                verified.insert(token.clone(), url);
                any = true;
                assert(next[i as int] == token@);
                assert(verified_of(next, catalog@) =~= verified_of(before, catalog@).insert(token@, catalog@[token@])) by {
                    assert forall|k: Seq<char>| next.contains(k) && k != token@ implies before.contains(k) by {
                        let j = choose|j: int| 0 <= j < next.len() && next[j] == k;
                        assert(before[j] == k);
                    }
                    assert forall|k: Seq<char>| before.contains(k) implies next.contains(k) by {
                        let j = choose|j: int| 0 <= j < before.len() && before[j] == k;
                        assert(next[j] == k);
                    }
                    assert(next.contains(token@));
                }
            },
        }
        i = i + 1;
    }
    assert(req.subrange(0, requested@.len() as int) =~= req);
    if !any {
        return (unsupported, Err(FatalError::NoValidExtensions));
    }
    proof {
        let j = choose|j: int| 0 <= j < req.len() && catalog@.contains_key(req[j]);
        assert(req.contains(req[j]));
        assert(verified@.contains_key(req[j]));
    }
    (unsupported, Ok(verified))
}

} // verus!
