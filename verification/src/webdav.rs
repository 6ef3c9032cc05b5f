//! Connection settings and root-confined URLs of a WebDAV repository.
use crate::sync::RequestPolicy;
use crate::text::{
    chars_of, concat_chars, string_of, trim_char, trim_end_char, trim_end_matches_char,
    trim_matches_char, trim_start_char, trim_start_matches_char,
};
use vstd::prelude::*;

verus! {

/// The HTTP client that carries WebDAV requests.
#[verifier::external_type_specification]
#[verifier::external_body]
pub struct ExHttpClient(reqwest::Client);

/// `reqwest::Client::clone` hands out another handle to the same connection pool; nothing
/// is stated of the handle.
pub assume_specification[ <reqwest::Client as Clone>::clone ](client: &reqwest::Client) -> reqwest::Client;

/// Connection details for one `WebDAV` repository.
#[derive(Clone, Debug)]
pub struct WebDavSource {
    pub endpoint: String,
    pub username: String,
    pub password: String,
    pub remote_path: String,
}

/// Failures of remote repository operations, with the underlying message kept as text.
#[derive(Clone, Debug)]
pub enum WebDavError {
    /// The HTTP request itself failed.
    Request(String),
    /// The server answered with an unexpected status.
    Status { status: u16, operation: String },
    /// The remote object does not exist.
    NotFound(String),
    /// Local file input or output failed.
    Io(String),
    /// Remote JSON could not be decoded.
    Json(String),
    /// A WebDAV method name was rejected.
    InvalidMethod(String),
    /// A rule of the remote protocol was violated.
    Remote(String),
}

/// Small `WebDAV` client with bounded retries and atomic temporary-object uploads.
#[derive(Clone)]
pub struct WebDavClient {
    client: reqwest::Client,
    source: WebDavSource,
    policy: RequestPolicy,
}

/// Builds an HTTP client with a one-minute request timeout (`reqwest::ClientBuilder::build`).
#[verifier::external_body]
fn build_http_client() -> (r: Result<reqwest::Client, String>) {
    reqwest::Client::builder()
        .timeout(std::time::Duration::from_secs(60))
        .build()
        .map_err(|error| error.to_string())
}

/// The URL of `relative` below the configured root of `endpoint`.
pub open spec fn webdav_url(endpoint: Seq<char>, remote_path: Seq<char>, relative: Seq<char>) -> Seq<
    char,
> {
    let base = trim_end_char(endpoint, '/');
    let root = trim_char(remote_path, '/');
    let rel = trim_start_char(relative, '/');
    if root.len() == 0 && rel.len() == 0 {
        base
    } else if root.len() == 0 {
        base + seq!['/'] + rel
    } else if rel.len() == 0 {
        base + seq!['/'] + root
    } else {
        base + seq!['/'] + root + seq!['/'] + rel
    }
}

/// Joins two character sequences with one `/`.
fn join_slash(a: &[char], b: &[char]) -> (r: Vec<char>)
    ensures
        r@ == a@ + seq!['/'] + b@,
{
    let slash: [char; 1] = ['/'];
    let head = concat_chars(a, slash.as_slice());
    proof {
        assert(slash@ =~= seq!['/']);
    }
    concat_chars(head.as_slice(), b)
}

impl WebDavClient {
    /// Creates a client for `source`; fails only when the HTTP client cannot be built.
    pub fn new(source: WebDavSource, policy: RequestPolicy) -> (r: Result<Self, WebDavError>)
        ensures
            r matches Ok(c) ==> c.source() == source && c.policy() == policy,
            r matches Err(e) ==> e is Request,
    {
        match build_http_client() {
            Ok(client) => Ok(WebDavClient { client, source, policy }),
            Err(message) => Err(WebDavError::Request(message)),
        }
    }

    pub closed spec fn source(&self) -> WebDavSource {
        self.source
    }

    pub closed spec fn policy(&self) -> RequestPolicy {
        self.policy
    }

    /// The configured connection details.
    pub fn connection(&self) -> (s: &WebDavSource)
        ensures
            *s == self.source(),
    {
        &self.source
    }

    /// The configured request limits.
    pub fn request_policy(&self) -> (p: RequestPolicy)
        ensures
            p == self.policy(),
    {
        self.policy
    }

    /// The HTTP client requests are sent with.
    pub closed spec fn http_client(&self) -> reqwest::Client {
        self.client
    }

    /// The underlying HTTP client.
    pub fn http(&self) -> (c: &reqwest::Client)
        ensures
            *c == self.http_client(),
    {
        &self.client
    }

    /// The absolute URL of a repository-relative path; it never leaves the configured root.
    pub fn url(&self, relative: &str) -> (u: String)
        ensures
            u@ == webdav_url(self.source().endpoint@, self.source().remote_path@, relative@),
    {
        let endpoint = chars_of(self.source.endpoint.as_str());
        let remote = chars_of(self.source.remote_path.as_str());
        let rel_chars = chars_of(relative);
        let base = trim_end_matches_char(endpoint.as_slice(), '/');
        let root = trim_matches_char(remote.as_slice(), '/');
        let rel = trim_start_matches_char(rel_chars.as_slice(), '/');
        let joined = if root.len() == 0 && rel.len() == 0 {
            base
        } else if root.len() == 0 {
            join_slash(base.as_slice(), rel.as_slice())
        } else if rel.len() == 0 {
            join_slash(base.as_slice(), root.as_slice())
        } else {
            let head = join_slash(base.as_slice(), root.as_slice());
            join_slash(head.as_slice(), rel.as_slice())
        };
        string_of(joined.as_slice())
    }
}

} // verus!
