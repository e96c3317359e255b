use vstd::prelude::*;
use vstd::string::StringExecFns;
use crate::errors::CrawlError;
use crate::strutil::{contains_char, starts_with_char, str_eq_str};

verus! {

/// What URL parsing yields for an absolute URL: its scheme, its host (absent
/// for URLs such as `mailto:` or `data:` ones), and its normalized
/// serialization.
pub struct UrlMeta {
    pub scheme: Seq<char>,
    pub host: Option<Seq<char>>,
    pub serialization: Seq<char>,
}

/// The outcome of URL parsing, as plain values.
#[derive(Clone, Debug, PartialEq)]
pub struct ParsedUrl {
    pub scheme: String,
    pub host: Option<String>,
    pub serialization: String,
}

impl View for ParsedUrl {
    type V = UrlMeta;

    open spec fn view(&self) -> UrlMeta {
        UrlMeta {
            scheme: self.scheme@,
            host: match self.host {
                Some(h) => Some(h@),
                None => None,
            },
            serialization: self.serialization@,
        }
    }
}

/// What `url::Url::parse` yields on a given string: `None` when the string
/// does not parse as an absolute URL, and otherwise the parsed URL's scheme,
/// host and serialization. Parsing is a function of the characters alone.
pub uninterp spec fn url_parse(s: Seq<char>) -> Option<UrlMeta>;

/// Relies on url::Url::parse to decide whether a string is an absolute URL,
/// and on Url::scheme, Url::host_str and the Url-to-String conversion to read
/// the parsed URL's parts; all are functions of the input characters alone.
/// The last clause relies on the invariant the crate itself maintains and
/// checks (Url::check_invariants): parsing a parsed URL's serialization
/// succeeds and preserves the serialization, the scheme, and a present host.
#[verifier::external_body]
fn parse_absolute(s: &str) -> (r: Option<ParsedUrl>)
    ensures
        match r {
            Some(p) => url_parse(s@) == Some(p@),
            None => url_parse(s@) is None,
        },
        r matches Some(p) ==> (url_parse(p.serialization@) matches Some(q)
            && q.serialization == p.serialization@ && q.scheme == p.scheme@ && (
        p@.host matches Some(h) ==> q.host == Some(h))),
{
    match url::Url::parse(s) {
        Ok(u) => {
            let scheme = u.scheme().to_owned();
            let host = u.host_str().map(str::to_owned);
            let serialization = String::from(u);
            Some(ParsedUrl { scheme, host, serialization })
        },
        Err(_) => None,
    }
}

/// The absolute URL synthesized for a relative path: `{scheme}://{host}{path}`.
pub open spec fn synthesized(scheme: Seq<char>, host: Seq<char>, path: Seq<char>) -> Seq<char> {
    scheme + "://"@ + host + path
}

/// A string fit to be a frontier key under this base: it parses as an
/// absolute URL on the base's host and holds no query or fragment marker.
pub open spec fn valid_key(base: Seq<char>, k: Seq<char>) -> bool {
    &&& url_parse(base) is Some
    &&& url_parse(k) is Some
    &&& url_parse(k)->Some_0.host == url_parse(base)->Some_0.host
    &&& !k.contains('?')
    &&& !k.contains('#')
}

/// What `normalise_url` returns: an absolute candidate is accepted unchanged
/// when its host equals the base's host and it holds no query or fragment; a
/// candidate that does not parse is accepted only as a root-relative path
/// without query or fragment, synthesized onto the base's scheme and host,
/// and only when the synthesized string is itself a fit key under the base.
pub open spec fn spec_normalize(base: Seq<char>, candidate: Seq<char>) -> Option<Seq<char>> {
    match url_parse(base) {
        None => None,
        Some(b) => match url_parse(candidate) {
            Some(u) => {
                if u.host == b.host && !candidate.contains('?') && !candidate.contains('#') {
                    Some(candidate)
                } else {
                    None
                }
            },
            None => {
                if candidate.len() > 0 && candidate[0] == '/' && !candidate.contains('?')
                    && !candidate.contains('#') {
                    match b.host {
                        Some(h) => {
                            if valid_key(base, synthesized(b.scheme, h, candidate)) {
                                Some(synthesized(b.scheme, h, candidate))
                            } else {
                                None
                            }
                        },
                        None => None,
                    }
                } else {
                    None
                }
            },
        },
    }
}

/// Everything normalization accepts is a fit frontier key: it parses as an
/// absolute URL on the base's host and holds no query or fragment.
pub proof fn lemma_normalize_gives_valid_keys(base: Seq<char>, candidate: Seq<char>)
    ensures
        spec_normalize(base, candidate) is Some ==> valid_key(
            base,
            spec_normalize(base, candidate)->Some_0,
        ),
{
}

/// Parses the URL that establishes the crawl's base and returns its
/// normalized serialization; fails when the URL is not absolute.
pub fn check_base_url(url: &str) -> (r: Result<String, CrawlError>)
    ensures
        match r {
            Ok(s) => url_parse(url@) matches Some(m) && m.serialization == s@,
            Err(e) => url_parse(url@) is None && e == CrawlError::InvalidBaseUrl,
        },
        r matches Ok(s) ==> (url_parse(s@) matches Some(q) && q.serialization == s@ && q.scheme
            == url_parse(url@)->Some_0.scheme && (url_parse(url@)->Some_0.host matches Some(h)
            ==> q.host == Some(h))),
{
    match parse_absolute(url) {
        Some(p) => Ok(p.serialization),
        None => Err(CrawlError::InvalidBaseUrl),
    }
}

/// Canonicalizes and filters one candidate URL against the base URL, as
/// `spec_normalize` states; rejected candidates yield no value.
pub fn normalise_url(base_url: &str, url: &str) -> (r: Option<String>)
    ensures
        match r {
            Some(s) => spec_normalize(base_url@, url@) == Some(s@),
            None => spec_normalize(base_url@, url@) is None,
        },
{
    let base = match parse_absolute(base_url) {
        Some(b) => b,
        None => {
            return None;
        },
    };
    let has_query = contains_char(url, '?');
    let has_fragment = contains_char(url, '#');
    match parse_absolute(url) {
        Some(u) => {
            let hosts_match = match &u.host {
                Some(uh) => match &base.host {
                    Some(bh) => str_eq_str(uh.as_str(), bh.as_str()),
                    None => false,
                },
                None => match &base.host {
                    Some(_) => false,
                    None => true,
                },
            };
            if hosts_match && !has_query && !has_fragment {
                Some(url.to_owned())
            } else {
                None
            }
        },
        None => {
            if starts_with_char(url, '/') && !has_query && !has_fragment {
                match &base.host {
                    Some(h) => {
                        let mut out: String = base.scheme.clone();
                        out.append("://");
                        out.append(h.as_str());
                        out.append(url);
                        let fit = match parse_absolute(out.as_str()) {
                            Some(v) => {
                                let same_host = match (&v.host) {
                                    Some(vh) => str_eq_str(vh.as_str(), h.as_str()),
                                    None => false,
                                };
                                same_host && !contains_char(out.as_str(), '?') && !contains_char(
                                    out.as_str(),
                                    '#',
                                )
                            },
                            None => false,
                        };
                        if fit {
                            Some(out)
                        } else {
                            None
                        }
                    },
                    None => None,
                }
            } else {
                None
            }
        },
    }
}

/// A candidate holding a query or a fragment marker is always rejected,
/// whatever its host.
pub proof fn lemma_normalize_rejects_query_fragment(base: Seq<char>, candidate: Seq<char>)
    ensures
        candidate.contains('?') || candidate.contains('#') ==> spec_normalize(base, candidate)
            is None,
{
}

/// A candidate that parses as an absolute URL on another host than the base's
/// is always rejected.
pub proof fn lemma_normalize_same_host_only(base: Seq<char>, candidate: Seq<char>)
    ensures
        (url_parse(base) matches Some(b) && url_parse(candidate) matches Some(u) && u.host
            != b.host) ==> spec_normalize(base, candidate) is None,
{
}

/// Normalization accepts only fit keys, and it returns a fit key unchanged,
/// so normalizing an accepted URL again yields the same URL.
pub proof fn lemma_normalize_idempotent(base: Seq<char>, candidate: Seq<char>)
    ensures
        spec_normalize(base, candidate) is Some ==> spec_normalize(
            base,
            spec_normalize(base, candidate)->Some_0,
        ) == spec_normalize(base, candidate),
{
    if spec_normalize(base, candidate) is Some {
        let v = spec_normalize(base, candidate)->Some_0;
        lemma_normalize_gives_valid_keys(base, candidate);
        assert(url_parse(v) is Some);
    }
}

} // verus!
