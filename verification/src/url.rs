//! The parts of an absolute URL that the library's rules read.
use vstd::prelude::*;

verus! {

/// Scheme, user name, whether a password is present, host, path segments (for URLs that
/// have a hierarchical path), and whether a query or fragment is present.
pub struct UrlParts {
    pub scheme: String,
    pub username: String,
    pub has_password: bool,
    pub host: Option<String>,
    pub segments: Option<Vec<String>>,
    pub has_query: bool,
    pub has_fragment: bool,
}

/// The plain-value form of [`UrlParts`].
pub type UrlView = (Seq<char>, Seq<char>, bool, Option<Seq<char>>, Option<Seq<Seq<char>>>, bool, bool);

impl View for UrlParts {
    type V = UrlView;

    open spec fn view(&self) -> UrlView {
        (
            self.scheme@,
            self.username@,
            self.has_password,
            match self.host {
                Some(h) => Some(h@),
                None => None,
            },
            match self.segments {
                Some(s) => Some(s@.map_values(|p: String| p@)),
                None => None,
            },
            self.has_query,
            self.has_fragment,
        )
    }
}

/// What `reqwest::Url::parse` reads from `text`, or `None` when it rejects it.
pub uninterp spec fn parsed_url(text: Seq<char>) -> Option<UrlView>;

/// Parses an absolute URL (`reqwest::Url::parse`) and reports its parts.
#[verifier::external_body]
pub fn parse_url(text: &str) -> (r: Option<UrlParts>)
    ensures
        match r {
            Some(p) => parsed_url(text@) == Some(p@),
            None => parsed_url(text@) is None,
        },
{
    reqwest::Url::parse(text).ok().map(|url| UrlParts {
        scheme: url.scheme().to_owned(),
        username: url.username().to_owned(),
        has_password: url.password().is_some(),
        host: url.host_str().map(str::to_owned),
        segments: url.path_segments().map(|parts| parts.map(str::to_owned).collect()),
        has_query: url.query().is_some(),
        has_fragment: url.fragment().is_some(),
    })
}

} // verus!
