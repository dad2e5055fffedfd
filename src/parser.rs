//! Page extraction: the title, the meta description and the links of an
//! HTML page, read with `scraper`.
use crate::canon::{canonicalize, opt_text};
use crate::engine::resolved_links;
use crate::frontier::texts;
use vstd::prelude::*;
use vstd::string::StringExecFns;

verus! {

/// The text nodes of the first `title` element that `scraper` finds in
/// `html`, in order.
pub uninterp spec fn title_pieces(html: Seq<char>) -> Option<Seq<Seq<char>>>;

/// The `content` of the first `meta[name="description"]` element that
/// `scraper` finds in `html`.
pub uninterp spec fn page_description(html: Seq<char>) -> Option<Seq<char>>;

/// The `href` attribute of each `a[href]` element that `scraper` finds in
/// `html`, in the order scraper's `select` yields them.
pub uninterp spec fn href_attrs(html: Seq<char>) -> Seq<Option<Seq<char>>>;

/// The title of a page: the text of its first `title` element.
pub open spec fn page_title(html: Seq<char>) -> Option<Seq<char>> {
    match title_pieces(html) {
        Some(p) => Some(p.flatten()),
        None => None,
    }
}

/// The raw links of a page, in the order scraper's `select` yields them.
pub open spec fn page_hrefs(html: Seq<char>) -> Seq<Seq<char>> {
    present(href_attrs(html))
}

pub open spec fn opt_texts(v: Seq<Option<String>>) -> Seq<Option<Seq<char>>> {
    v.map_values(|o: Option<String>| opt_text(o))
}

/// Relies on `scraper::Html::parse_document` and `Html::select` with the
/// selector `title`: the text nodes of the first match.
#[verifier::external_body]
fn title_of(html: &str) -> (r: Option<Vec<String>>)
    ensures
        match r {
            Some(v) => title_pieces(html@) == Some(texts(v@)),
            None => title_pieces(html@) is None,
        },
{
    let document = scraper::Html::parse_document(html);
    let selector = scraper::Selector::parse("title").unwrap();
    document.select(&selector).next().map(|e| e.text().map(|t| t.to_string()).collect())
}

/// Relies on `scraper::Html::parse_document` and `Html::select` with the
/// selector `meta[name="description"]`: the `content` attribute of the first
/// match.
#[verifier::external_body]
fn description_of(html: &str) -> (r: Option<String>)
    ensures
        opt_text(r) == page_description(html@),
{
    let document = scraper::Html::parse_document(html);
    let selector = scraper::Selector::parse(r#"meta[name="description"]"#).unwrap();
    document.select(&selector).next().and_then(|e| e.value().attr("content").map(|s| s.to_string()))
}

/// Relies on `scraper::Html::parse_document` and `Html::select` with the
/// selector `a[href]`: the `href` attribute of each match, in the order
/// `select` yields them.
#[verifier::external_body]
fn hrefs_of(html: &str) -> (r: Vec<Option<String>>)
    ensures
        opt_texts(r@) == href_attrs(html@),
{
    let document = scraper::Html::parse_document(html);
    let selector = scraper::Selector::parse("a[href]").unwrap();
    document.select(&selector).map(|e| e.value().attr("href").map(|s| s.to_string())).collect()
}

/// The pieces joined into one string.
pub fn concat_pieces(pieces: &Vec<String>) -> (r: String)
    ensures
        r@ == texts(pieces@).flatten(),
{
    let mut r = String::new();
    let mut i: usize = 0;
    assert(texts(pieces@).take(0) =~= Seq::<Seq<char>>::empty());
    while i < pieces.len()
        invariant
            i <= pieces@.len(),
            r@ == texts(pieces@).take(i as int).flatten(),
        decreases pieces@.len() - i,
    {
        let ghost before = texts(pieces@).take(i as int);
        r.append(pieces[i].as_str());
        proof {
            assert(texts(pieces@).take(i + 1) =~= before.push(pieces@[i as int]@));
            before.lemma_flatten_push(pieces@[i as int]@);
        }
        i = i + 1;
    }
    assert(texts(pieces@).take(pieces@.len() as int) =~= texts(pieces@));
    r
}

/// The values present among `v`, in order.
pub fn present_values(v: Vec<Option<String>>) -> (r: Vec<String>)
    ensures
        texts(r@) == present(opt_texts(v@)),
{
    let ghost all = opt_texts(v@);
    let mut r: Vec<String> = Vec::new();
    let mut i: usize = 0;
    while i < v.len()
        invariant
            i <= v@.len(),
            all == opt_texts(v@),
            texts(r@) == present(all.take(i as int)),
        decreases v@.len() - i,
    {
        let ghost r0 = texts(r@);
        assert(all.take(i + 1).drop_last() =~= all.take(i as int));
        assert(all.take(i + 1).last() == all[i as int]);
        match &v[i] {
            Some(u) => {
                r.push(u.clone());
                assert(texts(r@) =~= r0.push(u@));
            },
            None => {},
        }
        i = i + 1;
    }
    assert(all.take(v@.len() as int) =~= all);
    r
}

/// The title of a page: its text pieces joined.
fn read_title(html: &str) -> (r: Option<String>)
    ensures
        opt_text(r) == page_title(html@),
{
    match title_of(html) {
        Some(v) => Some(concat_pieces(&v)),
        None => None,
    }
}

/// The raw links of a page, in the order scraper's `select` yields them.
fn read_hrefs(html: &str) -> (r: Vec<String>)
    ensures
        texts(r@) == page_hrefs(html@),
{
    present_values(hrefs_of(html))
}

/// What extraction finds on a page.
pub struct PageContent {
    pub title: Option<String>,
    pub description: Option<String>,
    /// The raw `href` values, in the order scraper's `select` yields them.
    pub hrefs: Vec<String>,
}

/// Reads the title, meta description and raw links of a page. Malformed
/// markup gives whatever can be read, never an error.
pub fn extract_page(html: &str) -> (r: PageContent)
    ensures
        opt_text(r.title) == page_title(html@),
        opt_text(r.description) == page_description(html@),
        texts(r.hrefs@) == page_hrefs(html@),
{
    PageContent { title: read_title(html), description: description_of(html), hrefs: read_hrefs(html) }
}

/// The title and the meta description of a page.
pub fn parse_html(html: &str) -> (r: (Option<String>, Option<String>))
    ensures
        opt_text(r.0) == page_title(html@),
        opt_text(r.1) == page_description(html@),
{
    (read_title(html), description_of(html))
}

/// The URLs present in `s`, in order.
pub open spec fn present(s: Seq<Option<Seq<char>>>) -> Seq<Seq<char>>
    decreases s.len(),
{
    if s.len() == 0 {
        Seq::empty()
    } else {
        match s.last() {
            Some(u) => present(s.drop_last()).push(u),
            None => present(s.drop_last()),
        }
    }
}

/// The links of a page, each resolved against `base` and canonicalized,
/// in the order scraper's `select` yields them; links that do not resolve to an `http` or `https`
/// URL are left out.
pub fn extract_links(html: &str, base: &str) -> (r: Vec<String>)
    ensures
        texts(r@) == present(resolved_links(base@, page_hrefs(html@))),
{
    let hrefs = read_hrefs(html);
    let ghost cands = resolved_links(base@, texts(hrefs@));
    let mut links: Vec<String> = Vec::new();
    let mut i: usize = 0;
    while i < hrefs.len()
        invariant
            i <= hrefs@.len(),
            cands == resolved_links(base@, texts(hrefs@)),
            cands.len() == hrefs@.len(),
            texts(links@) == present(cands.take(i as int)),
        decreases hrefs@.len() - i,
    {
        let c = canonicalize(hrefs[i].as_str(), base);
        let ghost l0 = texts(links@);
        assert(cands[i as int] == opt_text(c));
        assert(cands.take(i + 1).drop_last() =~= cands.take(i as int));
        assert(cands.take(i + 1).last() == cands[i as int]);
        match c {
            Some(u) => {
                links.push(u);
                assert(texts(links@) =~= l0.push(u@));
            },
            None => {},
        }
        i = i + 1;
    }
    assert(cands.take(hrefs@.len() as int) =~= cands);
    links
}

} // verus!
