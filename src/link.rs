//! Absolute URLs as plain values, and the few operations of the `url` crate
//! that the crawler relies on.

use vstd::prelude::*;

verus! {

/// How the `url` parser can refuse a string.
#[derive(Clone, Copy, Debug, PartialEq, Eq, Structural)]
pub enum UrlFault {
    /// The string is a relative reference and no base URL was given.
    RelativeWithoutBase,
    /// Any other syntax error.
    Malformed,
}

/// An absolute URL, held as the parts of it that the crawler reads.
#[derive(Debug)]
pub struct Link {
    /// The URL's serialization.
    pub text: String,
    /// The scheme, without the `:`.
    pub scheme: String,
    /// The host, if the URL has one.
    pub host: Option<String>,
    /// The last segment of the path, if the URL can be a base.
    pub last_segment: Option<String>,
}

/// The mathematical value of a `Link`.
pub struct LinkView {
    pub text: Seq<char>,
    pub scheme: Seq<char>,
    pub host: Option<Seq<char>>,
    pub last_segment: Option<Seq<char>>,
}

/// The view of an optional string.
pub open spec fn opt_view(o: Option<String>) -> Option<Seq<char>> {
    match o {
        Some(s) => Some(s@),
        None => None,
    }
}

impl View for Link {
    type V = LinkView;

    open spec fn view(&self) -> LinkView {
        LinkView {
            text: self.text@,
            scheme: self.scheme@,
            host: opt_view(self.host),
            last_segment: opt_view(self.last_segment),
        }
    }
}

/// What `url::Url::parse` makes of a string: the parts of the absolute URL,
/// or the kind of its refusal.
pub uninterp spec fn url_parse(s: Seq<char>) -> Result<LinkView, UrlFault>;

/// The serialization of `Url::join(b, s)`, where `b` is what `Url::parse`
/// makes of `base`.
pub uninterp spec fn url_join(base: Seq<char>, s: Seq<char>) -> Result<Seq<char>, UrlFault>;

/// The serialization of the URL that `base` parses to, with its path set to
/// the empty path and its query removed.
pub uninterp spec fn url_site_root(base: Seq<char>) -> Option<Seq<char>>;

/// Relies on `url::Url::parse`, and on `as_str`, `scheme`, `host_str` and
/// `path_segments` of its result: the outcome depends on the string alone.
#[verifier::external_body]
pub(crate) fn parse_url(s: &str) -> (r: Result<Link, UrlFault>)
    ensures
        match r {
            Ok(l) => url_parse(s@) == Ok::<LinkView, UrlFault>(l@),
            Err(e) => url_parse(s@) == Err::<LinkView, UrlFault>(e),
        },
{
    match url::Url::parse(s) {
        Ok(u) => Ok(Link {
            text: u.as_str().to_string(),
            scheme: u.scheme().to_string(),
            host: u.host_str().map(|h| h.to_string()),
            last_segment: u.path_segments().and_then(|segs| segs.last()).map(|t| t.to_string()),
        }),
        Err(url::ParseError::RelativeUrlWithoutBase) => Err(UrlFault::RelativeWithoutBase),
        Err(_) => Err(UrlFault::Malformed),
    }
}

/// Relies on `url::Url::parse` of the base and `url::Url::join`: the outcome
/// depends on the two strings alone.
#[verifier::external_body]
pub(crate) fn join_url(base: &str, s: &str) -> (r: Result<String, UrlFault>)
    ensures
        match r {
            Ok(t) => url_join(base@, s@) == Ok::<Seq<char>, UrlFault>(t@),
            Err(e) => url_join(base@, s@) == Err::<Seq<char>, UrlFault>(e),
        },
{
    let joined = match url::Url::parse(base) {
        Ok(b) => b.join(s),
        Err(e) => Err(e),
    };
    match joined {
        Ok(u) => Ok(u.into()),
        Err(url::ParseError::RelativeUrlWithoutBase) => Err(UrlFault::RelativeWithoutBase),
        Err(_) => Err(UrlFault::Malformed),
    }
}

/// Relies on `url::Url::parse`, `Url::set_path("")` and `Url::set_query(None)`:
/// the outcome depends on the string alone.
#[verifier::external_body]
pub(crate) fn site_root(base: &str) -> (r: Option<String>)
    ensures
        opt_view(r) == url_site_root(base@),
{
    match url::Url::parse(base) {
        Ok(mut u) => {
            u.set_path("");
            u.set_query(None);
            Some(u.into())
        },
        Err(_) => None,
    }
}

/// Whether the four characters of `s` from `i` on spell `http`.
pub open spec fn http_at(s: Seq<char>, i: int) -> bool {
    &&& 0 <= i
    &&& i + 4 <= s.len()
    &&& s[i] == 'h'
    &&& s[i + 1] == 't'
    &&& s[i + 2] == 't'
    &&& s[i + 3] == 'p'
}

/// Whether `http` occurs in `s`.
pub open spec fn contains_http(s: Seq<char>) -> bool {
    exists|i: int| http_at(s, i)
}

/// Whether `s` holds `http` as a substring.
pub fn has_http(s: &str) -> (r: bool)
    ensures
        r == contains_http(s@),
{
    let n = s.unicode_len();
    if n < 4 {
        return false;
    }
    let mut i: usize = 0;
    while i <= n - 4
        invariant
            n == s@.len(),
            4 <= n,
            i <= n - 3,
            forall|j: int| 0 <= j < i ==> !http_at(s@, j),
        decreases n - i,
    {
        if s.get_char(i) == 'h' && s.get_char(i + 1) == 't' && s.get_char(i + 2) == 't'
            && s.get_char(i + 3) == 'p' {
            assert(http_at(s@, i as int));
            return true;
        }
        i = i + 1;
    }
    assert forall|j: int| !http_at(s@, j) by {
        if 0 <= j && j + 4 <= s@.len() {
            assert(j < i);
        }
    }
    false
}

/// Whether two optional strings are equal.
pub fn opt_string_eq(a: &Option<String>, b: &Option<String>) -> (r: bool)
    ensures
        r == (opt_view(*a) == opt_view(*b)),
{
    match a {
        Some(x) => match b {
            Some(y) => *x == *y,
            None => false,
        },
        None => b.is_none(),
    }
}

/// A copy of an optional string.
pub fn opt_string_clone(a: &Option<String>) -> (r: Option<String>)
    ensures
        opt_view(r) == opt_view(*a),
{
    match a {
        Some(x) => Some(x.clone()),
        None => None,
    }
}

impl Link {
    /// Whether the two links denote the same URL.
    pub fn same_as(&self, other: &Link) -> (r: bool)
        ensures
            r == (self@ == other@),
    {
        self.text == other.text && self.scheme == other.scheme && opt_string_eq(
            &self.host,
            &other.host,
        ) && opt_string_eq(&self.last_segment, &other.last_segment)
    }

    /// A copy of the link.
    pub fn duplicate(&self) -> (r: Link)
        ensures
            r@ == self@,
    {
        Link {
            text: self.text.clone(),
            scheme: self.scheme.clone(),
            host: opt_string_clone(&self.host),
            last_segment: opt_string_clone(&self.last_segment),
        }
    }

    /// Whether the crawler may follow the link: its scheme contains `http`
    /// and it has a host.
    pub fn is_followable(&self) -> (r: bool)
        ensures
            r == followable(self@),
    {
        has_http(self.scheme.as_str()) && self.host.is_some()
    }
}

/// Whether a link passes the crawler's filter.
pub open spec fn followable(l: LinkView) -> bool {
    contains_http(l.scheme) && l.host is Some
}

} // verus!
