//! Link canonicalization: resolving an href against its page, dropping the
//! fragment, and keeping only `http` and `https` URLs.
use vstd::prelude::*;

verus! {

/// What `url::Url::parse` serializes `s` to, or `None` where it fails.
pub uninterp spec fn parsed_url(s: Seq<char>) -> Option<Seq<char>>;

/// What `url::Url::join` serializes `href` to, resolved against the URL that
/// `base` parses to, or `None` where either step fails.
pub uninterp spec fn joined_url(base: Seq<char>, href: Seq<char>) -> Option<Seq<char>>;

/// The text of an optional string.
pub open spec fn opt_text(o: Option<String>) -> Option<Seq<char>> {
    match o {
        Some(s) => Some(s@),
        None => None,
    }
}

pub open spec fn http_prefix() -> Seq<char> {
    seq!['h', 't', 't', 'p', ':']
}

pub open spec fn https_prefix() -> Seq<char> {
    seq!['h', 't', 't', 'p', 's', ':']
}

/// A serialized URL whose scheme is `http` or `https`.
pub open spec fn is_web_url(s: Seq<char>) -> bool {
    5 <= s.len() && s.take(5) == http_prefix() || 6 <= s.len() && s.take(6) == https_prefix()
}

/// `n` is where the fragment of `s` begins: the first `#`, or the end.
pub open spec fn is_fragment_start(s: Seq<char>, n: int) -> bool {
    &&& 0 <= n <= s.len()
    &&& forall|i: int| 0 <= i < n ==> s[i] != '#'
    &&& (n == s.len() || s[n] == '#')
}

/// `s` without its fragment. In a serialized URL `#` appears nowhere before
/// the fragment, so the fragment starts at the first `#`.
pub open spec fn without_fragment(s: Seq<char>) -> Seq<char> {
    s.take(choose|n: int| is_fragment_start(s, n))
}

/// The canonical URL made from the result of resolving a link: the fragment
/// dropped, and nothing for a failed resolution or a scheme other than
/// `http` and `https`.
pub open spec fn canonical_form(resolved: Option<Seq<char>>) -> Option<Seq<char>> {
    match resolved {
        Some(t) => if is_web_url(t) {
            Some(without_fragment(t))
        } else {
            None
        },
        None => None,
    }
}

/// Relies on `url::Url::parse`, with the parsed URL handed back as its
/// serialization.
#[verifier::external_body]
fn parse_url(s: &str) -> (r: Option<String>)
    ensures
        opt_text(r) == parsed_url(s@),
{
    url::Url::parse(s).ok().map(|u| u.as_str().to_string())
}

/// Relies on `url::Url::join`, on the base that `url::Url::parse` reads from
/// `base`, with the result handed back as its serialization.
#[verifier::external_body]
fn join_url(base: &str, href: &str) -> (r: Option<String>)
    ensures
        opt_text(r) == joined_url(base@, href@),
{
    match url::Url::parse(base) {
        Ok(b) => b.join(href).ok().map(|u| u.as_str().to_string()),
        Err(_) => None,
    }
}

proof fn lemma_fragment_start_unique(s: Seq<char>, n: int)
    requires
        is_fragment_start(s, n),
    ensures
        without_fragment(s) == s.take(n),
{
    let m = choose|m: int| is_fragment_start(s, m);
    assert(is_fragment_start(s, m));
    if m < n {
        assert(s[m] == '#');
    } else if n < m {
        assert(s[n] == '#');
    }
}

proof fn lemma_without_fragment_exists(s: Seq<char>)
    ensures
        exists|n: int| is_fragment_start(s, n),
    decreases s.len(),
{
    if s.len() == 0 {
        assert(is_fragment_start(s, 0));
    } else if s[0] == '#' {
        assert(is_fragment_start(s, 0));
    } else {
        lemma_without_fragment_exists(s.drop_first());
        let n = choose|n: int| is_fragment_start(s.drop_first(), n);
        assert forall|i: int| 0 <= i < n + 1 implies s[i] != '#' by {
            if i > 0 {
                assert(s[i] == s.drop_first()[i - 1]);
            }
        }
        assert(is_fragment_start(s, n + 1));
    }
}

/// Whether the serialized URL `s` has the scheme `http` or `https`.
pub fn has_web_scheme(s: &str) -> (r: bool)
    ensures
        r == is_web_url(s@),
{
    let len = s.unicode_len();
    if len < 5 {
        return false;
    }
    let http = s.get_char(0) == 'h' && s.get_char(1) == 't' && s.get_char(2) == 't'
        && s.get_char(3) == 'p';
    if !http {
        assert(s@.take(5)[0] != 'h' || s@.take(5)[1] != 't' || s@.take(5)[2] != 't'
            || s@.take(5)[3] != 'p');
        assert(len >= 6 ==> (s@.take(6)[0] != 'h' || s@.take(6)[1] != 't'
            || s@.take(6)[2] != 't' || s@.take(6)[3] != 'p'));
        return false;
    }
    let c4 = s.get_char(4);
    if c4 == ':' {
        assert(s@.take(5) =~= http_prefix());
        return true;
    }
    assert(s@.take(5)[4] != ':');
    if len < 6 || c4 != 's' {
        assert(len >= 6 ==> s@.take(6)[4] != 's');
        return false;
    }
    let r = s.get_char(5) == ':';
    if r {
        assert(s@.take(6) =~= https_prefix());
    } else {
        assert(s@.take(6)[5] != ':');
    }
    r
}

/// `s` with its fragment (the first `#` and what follows it) removed.
pub fn strip_fragment(s: &str) -> (r: String)
    ensures
        r@ == without_fragment(s@),
{
    let len = s.unicode_len();
    let mut n: usize = 0;
    while n < len && s.get_char(n) != '#'
        invariant
            len == s@.len(),
            n <= len,
            forall|i: int| 0 <= i < n ==> s@[i] != '#',
        decreases len - n,
    {
        n = n + 1;
    }
    proof {
        lemma_fragment_start_unique(s@, n as int);
    }
    let t = s.substring_char(0, n);
    let r = t.to_string();
    proof {
        broadcast use vstd::string::to_string_from_display_ensures_for_str;
    }
    r
}

/// The canonical URL made from the outcome of resolving a link: `None` stays
/// `None`, a scheme other than `http` or `https` gives `None`, and otherwise
/// the fragment is dropped.
pub fn canonical_from_resolved(resolved: Option<String>) -> (r: Option<String>)
    ensures
        opt_text(r) == canonical_form(opt_text(resolved)),
{
    match resolved {
        Some(t) => {
            if has_web_scheme(t.as_str()) {
                Some(strip_fragment(t.as_str()))
            } else {
                None
            }
        },
        None => None,
    }
}

/// Resolves `raw` against the page URL `base` and canonicalizes it: absolute,
/// without fragment, `http` or `https` only; `None` for anything else.
pub fn canonicalize(raw: &str, base: &str) -> (r: Option<String>)
    ensures
        opt_text(r) == canonical_form(joined_url(base@, raw@)),
{
    canonical_from_resolved(join_url(base, raw))
}

/// Canonicalizes a URL given on its own, with no page to resolve it against
/// (the seed of a crawl, or an absolute link): its serialization with the
/// fragment dropped, or `None` where it does not parse or its scheme is not
/// `http` or `https`.
pub fn sanitize_link(link: &str) -> (r: Option<String>)
    ensures
        opt_text(r) == canonical_form(parsed_url(link@)),
{
    canonical_from_resolved(parse_url(link))
}

/// The steps that follow resolution (scheme filter, fragment removal) are
/// idempotent: a URL they produce passes through them again unchanged.
pub proof fn lemma_canonical_form_idempotent(resolved: Option<Seq<char>>)
    ensures
        canonical_form(resolved) matches Some(c) ==> canonical_form(Some(c)) == Some(c),
{
    if let Some(t) = resolved {
        if is_web_url(t) {
            lemma_without_fragment_exists(t);
            let n = choose|n: int| is_fragment_start(t, n);
            lemma_fragment_start_unique(t, n);
            let c = t.take(n);
            if 5 <= t.len() && t.take(5) == http_prefix() {
                assert(t[4] == ':');
                assert(n >= 5) by {
                    assert(t.take(5)[0] == 'h' && t.take(5)[4] == ':');
                    assert forall|i: int| 0 <= i < 5 implies t[i] != '#' by {
                        assert(t[i] == t.take(5)[i]);
                    }
                }
                assert(c.take(5) =~= t.take(5));
            } else {
                assert(n >= 6) by {
                    assert forall|i: int| 0 <= i < 6 implies t[i] != '#' by {
                        assert(t[i] == t.take(6)[i]);
                    }
                }
                assert(c.take(6) =~= t.take(6));
            }
            assert(is_fragment_start(c, c.len() as int));
            lemma_fragment_start_unique(c, c.len() as int);
            assert(c.take(c.len() as int) =~= c);
        }
    }
}

} // verus!
