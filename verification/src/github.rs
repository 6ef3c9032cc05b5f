//! GitHub repository scoping: repository names, branch and root checks, and API paths.
use crate::json::{as_str, Json};
use crate::sync::RequestPolicy;
use crate::text::{
    chars_of, concat_chars, contains_char, is_control, is_control_char, split, split_chars,
    string_of, trim, trim_char, trim_chars, trim_matches_char, trim_start_char,
    trim_start_matches_char,
};
use vstd::prelude::*;

verus! {

/// GitHub's single-file limit.
pub const MAX_GITHUB_FILE_BYTES: u64 = 104_857_600;

#[derive(Clone, Debug)]
pub struct GitHubSource {
    pub repository: String,
    pub branch: String,
    pub remote_path: String,
    pub token: String,
}

#[derive(Clone, Debug)]
pub struct GitHubChange {
    pub path: String,
    pub contents: Option<Vec<u8>>,
}

/// Failures of GitHub repository operations, with the underlying message kept as text.
#[derive(Clone, Debug)]
pub enum GitHubError {
    Request(String),
    Status { status: u16, operation: String, message: String },
    NotFound(String),
    Json(String),
    InvalidRepository,
    InvalidNewRepositoryName,
    InvalidPath,
    FileTooLarge { path: String },
}

#[derive(Clone, Debug, PartialEq, Eq)]
pub struct CreatedGitHubRepository {
    pub repository: String,
    pub branch: String,
}

/// The tree entry that removes `path` from a commit: a blob entry of mode `100644` whose
/// `sha` is null, with its members in key order.
pub fn deletion_tree_entry(path: &str) -> (r: Json)
    ensures
        r is Object,
        r matches Json::Object(m) ==> m@.len() == 4 && m@[0].0@ == "mode"@ && as_str(
            Some(m@[0].1),
        ) == Some("100644"@) && m@[1].0@ == "path"@ && as_str(Some(m@[1].1)) == Some(path@)
            && m@[2].0@ == "sha"@ && m@[2].1 is Null && m@[3].0@ == "type"@ && as_str(
            Some(m@[3].1),
        ) == Some("blob"@),
{
    let mut members: Vec<(String, Json)> = Vec::new();
    members.push(("mode".to_owned(), Json::Str("100644".to_owned())));
    members.push(("path".to_owned(), Json::Str(path.to_owned())));
    members.push(("sha".to_owned(), Json::Null));
    members.push(("type".to_owned(), Json::Str("blob".to_owned())));
    Json::Object(members)
}

/// The number of bytes UTF-8 uses for `c`.
pub open spec fn utf8_width(c: char) -> nat {
    if (c as u32) < 0x80 {
        1
    } else if (c as u32) < 0x800 {
        2
    } else if (c as u32) < 0x10000 {
        3
    } else {
        4
    }
}

/// The UTF-8 byte length of `s` (what `str::len` returns).
pub open spec fn utf8_len(s: Seq<char>) -> nat
    decreases s.len(),
{
    if s.len() == 0 {
        0
    } else {
        utf8_len(s.drop_last()) + utf8_width(s.last())
    }
}

/// A name GitHub may create as a new repository, after trimming.
pub open spec fn valid_new_repository_name_spec(name: Seq<char>) -> bool {
    let name = trim(name);
    name.len() > 0 && utf8_len(name) <= 100 && name != seq!['.'] && name != seq!['.', '.']
        && !name.contains('/') && !name.contains('\\') && !(exists|i: int|
        0 <= i < name.len() && is_control_char(#[trigger] name[i]))
}

fn utf8_length_at_most(s: &[char], limit: usize) -> (r: bool)
    ensures
        r == (utf8_len(s@) <= limit),
{
    let mut total: usize = 0;
    let mut i: usize = 0;
    while i < s.len()
        invariant
            i <= s@.len(),
            total == utf8_len(s@.take(i as int)),
            total <= limit,
        decreases s@.len() - i,
    {
        let c = s[i];
        let width: usize = if (c as u32) < 0x80 {
            1
        } else if (c as u32) < 0x800 {
            2
        } else if (c as u32) < 0x10000 {
            3
        } else {
            4
        };
        proof {
            assert(s@.take(i + 1).drop_last() =~= s@.take(i as int));
        }
        if width > limit - total {
            proof {
                lemma_utf8_len_prefix_monotone(s@, i + 1);
            }
            return false;
        }
        total = total + width;
        i = i + 1;
    }
    proof {
        assert(s@.take(s@.len() as int) =~= s@);
    }
    true
}

proof fn lemma_utf8_len_prefix_monotone(s: Seq<char>, k: int)
    requires
        0 <= k <= s.len(),
    ensures
        utf8_len(s.take(k)) <= utf8_len(s),
    decreases s.len() - k,
{
    if k < s.len() {
        lemma_utf8_len_prefix_monotone(s, k + 1);
        assert(s.take(k + 1).drop_last() =~= s.take(k));
    } else {
        assert(s.take(k) =~= s);
    }
}

fn any_control(s: &[char]) -> (r: bool)
    ensures
        r == exists|i: int| 0 <= i < s@.len() && is_control_char(#[trigger] s@[i]),
{
    let mut i: usize = 0;
    while i < s.len()
        invariant
            i <= s@.len(),
            forall|j: int| 0 <= j < i ==> !is_control_char(#[trigger] s@[j]),
        decreases s@.len() - i,
    {
        if is_control(s[i]) {
            return true;
        }
        i = i + 1;
    }
    false
}

/// Validates the name of a repository to create, returning it trimmed.
pub fn valid_new_repository_name(name: &str) -> (r: Result<String, GitHubError>)
    ensures
        r is Ok <==> valid_new_repository_name_spec(name@),
        r matches Ok(n) ==> n@ == trim(name@),
        r matches Err(e) ==> e is InvalidNewRepositoryName,
{
    let raw = chars_of(name);
    let n = trim_chars(raw.as_slice());
    let is_dot = (n.len() == 1 && n[0] == '.') || (n.len() == 2 && n[0] == '.' && n[1] == '.');
    proof {
        if n@.len() == 1 && n@[0] == '.' {
            assert(n@ =~= seq!['.']);
        }
        if n@.len() == 2 && n@[0] == '.' && n@[1] == '.' {
            assert(n@ =~= seq!['.', '.']);
        }
    }
    if n.len() == 0 || !utf8_length_at_most(n.as_slice(), 100) || is_dot || contains_char(
        n.as_slice(),
        '/',
    ) || contains_char(n.as_slice(), '\\') || any_control(n.as_slice()) {
        return Err(GitHubError::InvalidNewRepositoryName);
    }
    Ok(string_of(n.as_slice()))
}

/// How many pieces of `parts` are non-empty.
pub open spec fn count_nonempty(parts: Seq<Seq<char>>) -> nat
    decreases parts.len(),
{
    if parts.len() == 0 {
        0
    } else {
        count_nonempty(parts.drop_last()) + if parts.last().len() > 0 {
            1nat
        } else {
            0nat
        }
    }
}

/// `owner/repository`, ignoring empty pieces between slashes.
pub open spec fn valid_repository_spec(repository: Seq<char>) -> bool {
    count_nonempty(split(repository, '/')) == 2
}

pub open spec fn any_dotdot(parts: Seq<Seq<char>>) -> bool {
    exists|i: int| 0 <= i < parts.len() && #[trigger] parts[i] == seq!['.', '.']
}

/// A branch and root directory that stay inside the repository.
pub open spec fn valid_scope_spec(branch: Seq<char>, remote_path: Seq<char>) -> bool {
    trim(branch).len() > 0 && !any_dotdot(split(branch, '/')) && !any_dotdot(
        split(trim_char(remote_path, '/'), '/'),
    )
}

pub open spec fn api_root_spec(repository: Seq<char>) -> Seq<char> {
    "https://api.github.com/repos/"@ + repository
}

pub(crate) fn count_nonempty_parts(s: &[char]) -> (n: usize)
    ensures
        n == count_nonempty(split(s@, '/')),
{
    let parts = split_chars(s, '/');
    let ghost views = parts@.map_values(|p: Vec<char>| p@);
    let mut count: usize = 0;
    let mut i: usize = 0;
    while i < parts.len()
        invariant
            views == split(s@, '/'),
            views == parts@.map_values(|p: Vec<char>| p@),
            i <= parts@.len(),
            count == count_nonempty(views.take(i as int)),
            count <= i,
        decreases parts@.len() - i,
    {
        proof {
            assert(views.take(i + 1).drop_last() =~= views.take(i as int));
            assert(views[i as int] == parts@[i as int]@);
        }
        if parts[i].len() > 0 {
            count = count + 1;
        }
        i = i + 1;
    }
    proof {
        assert(views.take(parts@.len() as int) =~= views);
    }
    count
}

fn has_dotdot_part(s: &[char]) -> (r: bool)
    ensures
        r == any_dotdot(split(s@, '/')),
{
    let parts = split_chars(s, '/');
    let ghost views = parts@.map_values(|p: Vec<char>| p@);
    let mut i: usize = 0;
    while i < parts.len()
        invariant
            views == split(s@, '/'),
            views == parts@.map_values(|p: Vec<char>| p@),
            i <= parts@.len(),
            forall|j: int| 0 <= j < i ==> #[trigger] views[j] != seq!['.', '.'],
        decreases parts@.len() - i,
    {
        let p = &parts[i];
        proof {
            assert(views[i as int] == p@);
        }
        if p.len() == 2 && p[0] == '.' && p[1] == '.' {
            proof {
                assert(p@ =~= seq!['.', '.']);
            }
            return true;
        }
        proof {
            if p@ == seq!['.', '.'] {
                assert(p@[0] == '.');
            }
        }
        i = i + 1;
    }
    false
}

/// Builds an HTTP client with a one-minute request timeout (`reqwest::ClientBuilder::build`).
#[verifier::external_body]
fn build_github_http_client() -> (r: Result<reqwest::Client, String>) {
    reqwest::Client::builder()
        .timeout(std::time::Duration::from_secs(60))
        .build()
        .map_err(|error| error.to_string())
}

/// A GitHub repository client confined to one branch and root directory.
pub struct GitHubClient {
    client: reqwest::Client,
    api_root: String,
    source: GitHubSource,
    policy: RequestPolicy,
}

/// The path of a repository file below the configured root, if it stays inside it.
pub open spec fn scoped_path_spec(remote_path: Seq<char>, path: Seq<char>) -> Option<Seq<char>> {
    let p = trim_char(path, '/');
    let parts = split(p, '/');
    if exists|i: int|
        0 <= i < parts.len() && (#[trigger] parts[i] == seq!['.', '.'] || (parts[i].len() == 0
            && p.len() > 0)) {
        None
    } else {
        let root = trim_char(remote_path, '/');
        if root.len() == 0 {
            Some(p)
        } else if p.len() == 0 {
            Some(root)
        } else {
            Some(root + seq!['/'] + p)
        }
    }
}

/// The API URL for `suffix` below the repository endpoint.
pub open spec fn api_spec(api_root: Seq<char>, suffix: Seq<char>) -> Seq<char> {
    let s = trim_start_char(suffix, '/');
    if s.len() == 0 {
        api_root
    } else {
        api_root + seq!['/'] + s
    }
}

fn join_with_slash(a: &[char], b: &[char]) -> (r: Vec<char>)
    ensures
        r@ == a@ + seq!['/'] + b@,
{
    let slash: [char; 1] = ['/'];
    proof {
        assert(slash@ =~= seq!['/']);
    }
    let head = concat_chars(a, slash.as_slice());
    concat_chars(head.as_slice(), b)
}


/// The outcome of scoping the changes of a commit: each path placed below the root, or the
/// first problem: a path that leaves the root (`None`), or contents larger than GitHub
/// accepts (the scoped path).
pub open spec fn scoped_changes_spec(remote_path: Seq<char>, changes: Seq<GitHubChange>) -> Result<
    Seq<(Seq<char>, Option<Seq<u8>>)>,
    Option<Seq<char>>,
>
    decreases changes.len(),
{
    if changes.len() == 0 {
        Ok(Seq::empty())
    } else {
        match scoped_changes_spec(remote_path, changes.drop_last()) {
            Err(e) => Err(e),
            Ok(done) => {
                let change = changes.last();
                match scoped_path_spec(remote_path, change.path@) {
                    None => Err(None),
                    Some(p) => match change.contents {
                        Some(c) => if c@.len() > MAX_GITHUB_FILE_BYTES {
                            Err(Some(p))
                        } else {
                            Ok(done.push((p, Some(c@))))
                        },
                        None => Ok(done.push((p, None))),
                    },
                }
            },
        }
    }
}

/// Once a prefix of the changes has a problem, all of them have the same one.
proof fn lemma_scoped_changes_error(root: Seq<char>, all: Seq<GitHubChange>, n: int)
    requires
        0 <= n <= all.len(),
        scoped_changes_spec(root, all.take(n)) is Err,
    ensures
        scoped_changes_spec(root, all) == scoped_changes_spec(root, all.take(n)),
    decreases all.len() - n,
{
    if n < all.len() {
        assert(all.take(n + 1).drop_last() =~= all.take(n));
        lemma_scoped_changes_error(root, all, n + 1);
    } else {
        assert(all.take(n) =~= all);
    }
}

impl GitHubClient {
    /// Creates a client after validating repository, branch, and root-directory input.
    pub fn new(source: GitHubSource, policy: RequestPolicy) -> (r: Result<Self, GitHubError>)
        ensures
            !valid_repository_spec(source.repository@) ==> r matches Err(
                GitHubError::InvalidRepository,
            ),
            valid_repository_spec(source.repository@) && !valid_scope_spec(
                source.branch@,
                source.remote_path@,
            ) ==> r matches Err(GitHubError::InvalidPath),
            r is Ok ==> valid_repository_spec(source.repository@) && valid_scope_spec(
                source.branch@,
                source.remote_path@,
            ),
            r matches Ok(c) ==> c.source() == source && c.policy() == policy && c.api_root()
                == api_root_spec(source.repository@),
            r matches Err(e) ==> e is InvalidRepository || e is InvalidPath || e is Request,
    {
        let repository = chars_of(source.repository.as_str());
        if count_nonempty_parts(repository.as_slice()) != 2 {
            return Err(GitHubError::InvalidRepository);
        }
        let branch = chars_of(source.branch.as_str());
        let remote = chars_of(source.remote_path.as_str());
        let trimmed_remote = trim_matches_char(remote.as_slice(), '/');
        if trim_chars(branch.as_slice()).len() == 0 || has_dotdot_part(branch.as_slice())
            || has_dotdot_part(trimmed_remote.as_slice()) {
            return Err(GitHubError::InvalidPath);
        }
        let client = match build_github_http_client() {
            Ok(client) => client,
            Err(message) => return Err(GitHubError::Request(message)),
        };
        let prefix = chars_of("https://api.github.com/repos/");
        let root = concat_chars(prefix.as_slice(), repository.as_slice());
        Ok(GitHubClient { client, api_root: string_of(root.as_slice()), source, policy })
    }

    pub closed spec fn source(&self) -> GitHubSource {
        self.source
    }

    pub closed spec fn policy(&self) -> RequestPolicy {
        self.policy
    }

    pub closed spec fn api_root(&self) -> Seq<char> {
        self.api_root@
    }

    /// The configured repository, branch, root and token.
    pub fn connection(&self) -> (s: &GitHubSource)
        ensures
            *s == self.source(),
    {
        &self.source
    }

    /// The configured request limits.
    pub fn request_policy(&self) -> (p: RequestPolicy)
        ensures
            p == self.policy(),
    {
        self.policy
    }

    /// The HTTP client requests are sent with.
    pub closed spec fn http_client(&self) -> reqwest::Client {
        self.client
    }

    /// The underlying HTTP client.
    pub fn http(&self) -> (c: &reqwest::Client)
        ensures
            *c == self.http_client(),
    {
        &self.client
    }

    /// The API URL of `suffix` below this repository's endpoint.
    pub fn api(&self, suffix: &str) -> (u: String)
        ensures
            u@ == api_spec(self.api_root(), suffix@),
    {
        let root = chars_of(self.api_root.as_str());
        let raw = chars_of(suffix);
        let s = trim_start_matches_char(raw.as_slice(), '/');
        if s.len() == 0 {
            string_of(root.as_slice())
        } else {
            let joined = join_with_slash(root.as_slice(), s.as_slice());
            string_of(joined.as_slice())
        }
    }

    /// The repository path of `path` below the configured root directory.
    pub fn scoped_path(&self, path: &str) -> (r: Result<String, GitHubError>)
        ensures
            match scoped_path_spec(self.source().remote_path@, path@) {
                Some(p) => r matches Ok(s) && s@ == p,
                None => r matches Err(GitHubError::InvalidPath),
            },
    {
        let raw = chars_of(path);
        let p = trim_matches_char(raw.as_slice(), '/');
        let parts = split_chars(p.as_slice(), '/');
        let ghost views = parts@.map_values(|q: Vec<char>| q@);
        let mut i: usize = 0;
        while i < parts.len()
            invariant
                p@ == trim_char(path@, '/'),
                views == split(p@, '/'),
                views == parts@.map_values(|q: Vec<char>| q@),
                i <= parts@.len(),
                forall|j: int|
                    0 <= j < i ==> !(#[trigger] views[j] == seq!['.', '.'] || (views[j].len() == 0
                        && p@.len() > 0)),
            decreases parts@.len() - i,
        {
            let part = &parts[i];
            proof {
                assert(views[i as int] == part@);
            }
            let dotdot = part.len() == 2 && part[0] == '.' && part[1] == '.';
            proof {
                if dotdot {
                    assert(part@ =~= seq!['.', '.']);
                }
                if part@ == seq!['.', '.'] {
                    assert(part@[0] == '.' && part@[1] == '.');
                }
            }
            if dotdot || (part.len() == 0 && p.len() > 0) {
                proof {
                    let q = trim_char(path@, '/');
                    assert(q == p@);
                    assert(split(q, '/')[i as int] == part@);
                    assert(split(q, '/')[i as int] == seq!['.', '.'] || (split(q, '/')[i as int].len()
                        == 0 && q.len() > 0));
                    assert(scoped_path_spec(self.source().remote_path@, path@) is None);
                }
                return Err(GitHubError::InvalidPath);
            }
            i = i + 1;
        }
        let remote = chars_of(self.source.remote_path.as_str());
        let root = trim_matches_char(remote.as_slice(), '/');
        let joined = if root.len() == 0 {
            p
        } else if p.len() == 0 {
            root
        } else {
            join_with_slash(root.as_slice(), p.as_slice())
        };
        Ok(string_of(joined.as_slice()))
    }

    /// Places every change of a commit below the configured root, refusing paths that leave
    /// it and contents larger than GitHub accepts; the first problem wins.
    pub fn scope_changes(&self, changes: Vec<GitHubChange>) -> (r: Result<Vec<GitHubChange>, GitHubError>)
        ensures
            match scoped_changes_spec(self.source().remote_path@, changes@) {
                Ok(s) => r is Ok && r->Ok_0@.len() == s.len() && forall|i: int|
                    0 <= i < s.len() ==> (#[trigger] r->Ok_0@[i]).path@ == s[i].0 && match s[i].1 {
                        Some(c) => r->Ok_0@[i].contents matches Some(d) && d@ == c,
                        None => r->Ok_0@[i].contents is None,
                    },
                Err(None) => r matches Err(GitHubError::InvalidPath),
                Err(Some(p)) => r matches Err(GitHubError::FileTooLarge { path }) && path@ == p,
            },
    {
        let ghost all = changes@;
        let ghost root = self.source().remote_path@;
        let total = changes.len();
        let mut rest = changes;
        let mut out: Vec<GitHubChange> = Vec::new();
        let mut n: usize = 0;
        proof {
            assert(all.take(0) =~= Seq::<GitHubChange>::empty());
            assert(rest@ =~= all.skip(0));
        }
        while rest.len() > 0
            invariant
                all.len() == total,
                all == changes@,
                n <= total,
                rest@ == all.skip(n as int),
                root == self.source().remote_path@,
                scoped_changes_spec(root, all.take(n as int)) is Ok,
                out@.len() == scoped_changes_spec(root, all.take(n as int))->Ok_0.len(),
                forall|i: int|
                    0 <= i < out@.len() ==> (#[trigger] out@[i]).path@ == scoped_changes_spec(
                        root,
                        all.take(n as int),
                    )->Ok_0[i].0 && match scoped_changes_spec(root, all.take(n as int))->Ok_0[i].1 {
                        Some(c) => out@[i].contents matches Some(d) && d@ == c,
                        None => out@[i].contents is None,
                    },
            decreases rest@.len(),
        {
            let change = rest.remove(0);
            proof {
                assert(change == all[n as int]);
                assert(all.take(n + 1).drop_last() =~= all.take(n as int));
                assert(all.take(n + 1).last() == change);
            }
            let path = match self.scoped_path(change.path.as_str()) {
                Ok(p) => p,
                Err(e) => {
                    proof {
                        assert(scoped_changes_spec(root, all.take(n + 1)) == Err::<Seq<(Seq<char>, Option<Seq<u8>>)>, Option<Seq<char>>>(None));
                        lemma_scoped_changes_error(root, all, n + 1);
                    }
                    return Err(e);
                },
            };
            let too_large = match &change.contents {
                Some(c) => c.len() as u64 > MAX_GITHUB_FILE_BYTES,
                None => false,
            };
            if too_large {
                proof {
                    assert(scoped_changes_spec(root, all.take(n + 1)) == Err::<Seq<(Seq<char>, Option<Seq<u8>>)>, Option<Seq<char>>>(Some(path@)));
                    lemma_scoped_changes_error(root, all, n + 1);
                }
                return Err(GitHubError::FileTooLarge { path });
            }
            let ghost before = out@;
            out.push(GitHubChange { path, contents: change.contents });
            n = n + 1;
            proof {
                assert(rest@ =~= all.skip(n as int));
                let s = scoped_changes_spec(root, all.take(n as int))->Ok_0;
                assert forall|i: int| 0 <= i < out@.len() implies (#[trigger] out@[i]).path@ == s[i].0
                    && match s[i].1 {
                    Some(c) => out@[i].contents matches Some(d) && d@ == c,
                    None => out@[i].contents is None,
                } by {
                    if i < before.len() {
                        assert(out@[i] == before[i]);
                    }
                }
            }
        }
        proof {
            assert(all.take(n as int) =~= all);
        }
        Ok(out)
    }
}

} // verus!
