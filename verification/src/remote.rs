//! Root-confined remote paths and the public/secret split of object-store settings.
use crate::text::{
    chars_of, contains_char, has_suffix, split, split_chars, string_of, trim_char,
    trim_matches_char,
};
use crate::json::{parse_json, parsed_json, serialized_json, write_json};
use crate::keyed::{copy_pairs, pairs_get, pairs_map, lemma_pairs_map_push, string_listed};
use crate::model::strings_view;
use crate::url::{parse_url, parsed_url};
use crate::webdav::WebDavError;
use base64::Engine;
use vstd::prelude::*;

verus! {

/// Object-store services that may be configured.
pub const OPEN_DAL_SCHEMES: [&'static str; 11] = [
    "github",
    "webdav",
    "s3",
    "b2",
    "azblob",
    "gcs",
    "oss",
    "cos",
    "obs",
    "tos",
    "swift",
];

/// Configuration keys that may be stored in plain settings; every other key is a secret.
pub const PUBLIC_CONFIG_KEYS: [&'static str; 9] = [
    "endpoint",
    "bucket",
    "bucket_id",
    "region",
    "container",
    "owner",
    "repo",
    "username",
    "account_name",
];

/// Connection details for one object-store service.
pub struct OpenDalSource {
    pub scheme: String,
    pub root: String,
    pub config: Vec<(String, String)>,
    pub secret_keys: Vec<String>,
}

/// `.` or `..`.
pub open spec fn is_dot_component(part: Seq<char>) -> bool {
    part == seq!['.'] || part == seq!['.', '.']
}

/// A path that stays inside the configured remote root.
pub open spec fn valid_relative_path_spec(path: Seq<char>) -> bool {
    !(path.len() > 0 && path[0] == '/') && !path.contains('\\') && !path.contains(':')
        && !path.contains('\0') && !(exists|i: int|
        0 <= i < split(path, '/').len() && is_dot_component(#[trigger] split(path, '/')[i]))
}

pub open spec fn path_escape_message() -> Seq<char> {
    "远端路径必须位于同步源目录内"@
}

pub fn is_dot_part(part: &[char]) -> (r: bool)
    ensures
        r == is_dot_component(part@),
{
    if part.len() == 1 {
        let r = part[0] == '.';
        proof {
            if r {
                assert(part@ =~= seq!['.']);
            }
        }
        r
    } else if part.len() == 2 {
        let r = part[0] == '.' && part[1] == '.';
        proof {
            if r {
                assert(part@ =~= seq!['.', '.']);
            }
        }
        r
    } else {
        false
    }
}

/// Whether any `/`-separated component of `path` is `.` or `..`.
pub fn has_dot_component(path: &[char]) -> (r: bool)
    ensures
        r == exists|i: int|
            0 <= i < split(path@, '/').len() && is_dot_component(#[trigger] split(path@, '/')[i]),
{
    let parts = split_chars(path, '/');
    let ghost views = parts@.map_values(|p: Vec<char>| p@);
    let mut i: usize = 0;
    while i < parts.len()
        invariant
            views == split(path@, '/'),
            views.len() == parts@.len(),
            views == parts@.map_values(|p: Vec<char>| p@),
            i <= parts@.len(),
            forall|j: int| 0 <= j < i ==> !is_dot_component(#[trigger] views[j]),
        decreases parts@.len() - i,
    {
        if is_dot_part(parts[i].as_slice()) {
            proof {
                assert(views[i as int] == parts@[i as int]@);
            }
            return true;
        }
        proof {
            assert(views[i as int] == parts@[i as int]@);
        }
        i = i + 1;
    }
    false
}

/// Rejects paths that could leave the remote root before any service normalizes them.
pub fn validate_relative_path(path: &str) -> (r: Result<(), WebDavError>)
    ensures
        r is Ok <==> valid_relative_path_spec(path@),
        r matches Err(e) ==> e matches WebDavError::Remote(m) && m@ == path_escape_message(),
{
    let chars = chars_of(path);
    if (chars.len() > 0 && chars[0] == '/') || contains_char(chars.as_slice(), '\\')
        || contains_char(chars.as_slice(), ':') || contains_char(chars.as_slice(), '\0')
        || has_dot_component(chars.as_slice()) {
        return Err(WebDavError::Remote(string_of(path_escape_chars().as_slice())));
    }
    Ok(())
}

fn path_escape_chars() -> (v: Vec<char>)
    ensures
        v@ == path_escape_message(),
{
    chars_of("远端路径必须位于同步源目录内")
}

/// Keys that would let a service read local credential files or leave its root.
pub open spec fn is_local_credential_key_spec(key: Seq<char>) -> bool {
    key == "root"@ || key == "branch"@ || key == "credential_path"@ || key
        == "google_application_credentials"@ || key == "aws_profile"@ || crate::text::ends_with(
        key,
        "_path"@,
    ) || crate::text::ends_with(key, "_file"@)
}

/// Whether a secret key must never be forwarded to a service.
pub fn is_local_credential_key(key: &str) -> (r: bool)
    ensures
        r == is_local_credential_key_spec(key@),
{
    let k = chars_of(key);
    let listed = str_is(key, "root") || str_is(key, "branch") || str_is(key, "credential_path")
        || str_is(key, "google_application_credentials") || str_is(key, "aws_profile");
    let path_suffix = chars_of("_path");
    let file_suffix = chars_of("_file");
    listed || has_suffix(k.as_slice(), path_suffix.as_slice()) || has_suffix(
        k.as_slice(),
        file_suffix.as_slice(),
    )
}

/// Exact string equality of two slices.
pub fn str_is(a: &str, b: &str) -> (r: bool)
    ensures
        r == (a@ == b@),
{
    let x = a.to_owned();
    let y = b.to_owned();
    x == y
}

/// Whether `value` is one of `options`.
pub fn str_in(value: &str, options: &[&str]) -> (r: bool)
    ensures
        r == exists|i: int| 0 <= i < options@.len() && (#[trigger] options@[i])@ == value@,
{
    let mut i: usize = 0;
    while i < options.len()
        invariant
            i <= options@.len(),
            forall|j: int| 0 <= j < i ==> (#[trigger] options@[j])@ != value@,
        decreases options@.len() - i,
    {
        if str_is(options[i], value) {
            return true;
        }
        i = i + 1;
    }
    false
}

/// The root a service is confined to: the configured root without outer slashes, below `/`.
pub open spec fn service_root(root: Seq<char>) -> Seq<char> {
    seq!['/'] + trim_char(root, '/')
}

/// Confines a configured root below the service origin.
pub fn normalized_service_root(root: &str) -> (r: String)
    ensures
        r@ == service_root(root@),
{
    let chars = chars_of(root);
    let trimmed = trim_matches_char(chars.as_slice(), '/');
    let mut all: Vec<char> = Vec::new();
    all.push('/');
    let mut i: usize = 0;
    while i < trimmed.len()
        invariant
            i <= trimmed@.len(),
            all@ == seq!['/'] + trimmed@.take(i as int),
        decreases trimmed@.len() - i,
    {
        all.push(trimmed[i]);
        i = i + 1;
        proof {
            assert(all@ =~= seq!['/'] + trimmed@.take(i as int));
        }
    }
    proof {
        assert(trimmed@.take(trimmed@.len() as int) =~= trimmed@);
    }
    string_of(all.as_slice())
}

/// The character of the standard base64 alphabet for a six-bit value.
pub open spec fn base64_digit(v: int) -> char {
    if v < 26 {
        (65 + v) as char
    } else if v < 52 {
        (97 + v - 26) as char
    } else if v < 62 {
        (48 + v - 52) as char
    } else if v == 62 {
        '+'
    } else {
        '/'
    }
}

/// Standard base64 (RFC 4648 alphabet, padded with `=`): every three bytes become four
/// characters, six bits each; a last group of one or two bytes is padded.
pub open spec fn base64_standard(bytes: Seq<u8>) -> Seq<char>
    decreases bytes.len(),
{
    if bytes.len() == 0 {
        Seq::empty()
    } else if bytes.len() == 1 {
        let a = bytes[0] as int;
        seq![base64_digit(a / 4), base64_digit((a % 4) * 16), '=', '=']
    } else if bytes.len() == 2 {
        let (a, b) = (bytes[0] as int, bytes[1] as int);
        seq![base64_digit(a / 4), base64_digit((a % 4) * 16 + b / 16), base64_digit((b % 16) * 4), '=']
    } else {
        let (a, b, c) = (bytes[0] as int, bytes[1] as int, bytes[2] as int);
        seq![
            base64_digit(a / 4),
            base64_digit((a % 4) * 16 + b / 16),
            base64_digit((b % 16) * 4 + c / 64),
            base64_digit(c % 64),
        ] + base64_standard(bytes.skip(3))
    }
}

/// Encodes bytes with `base64::engine::general_purpose::STANDARD`: standard alphabet,
/// with padding.
#[verifier::external_body]
pub(crate) fn encode_base64(bytes: &[u8]) -> (r: String)
    ensures
        r@ == base64_standard(bytes@),
{
    base64::engine::general_purpose::STANDARD.encode(bytes)
}

pub open spec fn gcs_credential_message() -> Seq<char> {
    "GCS credential 必须是服务账号 JSON 内容"@
}

/// The form in which a GCS service-account credential is handed to the service: the JSON
/// document re-serialized compactly, in base64; `None` when `value` is not JSON.
pub open spec fn gcs_credential_text(value: Seq<char>) -> Option<Seq<char>> {
    match parsed_json(vstd::utf8::encode_utf8(value)) {
        Some(doc) => Some(base64_standard(serialized_json(doc.tree()))),
        None => None,
    }
}

/// Re-encodes a GCS service-account credential for the service.
pub fn gcs_credential_as_base64(value: &str) -> (r: Result<String, WebDavError>)
    ensures
        match gcs_credential_text(value@) {
            Some(t) => r matches Ok(s) && s@ == t,
            None => r matches Err(WebDavError::Remote(m)) && m@ == gcs_credential_message(),
        },
{
    match parse_json(value.as_bytes()) {
        Some(doc) => {
            let bytes = write_json(&doc);
            Ok(encode_base64(bytes.as_slice()))
        },
        None => Err(WebDavError::Remote(chars_text("GCS credential 必须是服务账号 JSON 内容"))),
    }
}

fn chars_text(s: &str) -> (r: String)
    ensures
        r@ == s@,
{
    s.to_owned()
}

/// Whether a public setting key may be stored in plain settings: a known public key that is
/// not declared secret.
pub open spec fn public_key_allowed(key: Seq<char>, secret_keys: Seq<Seq<char>>) -> bool {
    (exists|j: int| 0 <= j < 9 && (#[trigger] PUBLIC_CONFIG_KEYS@[j])@ == key) && !secret_keys.contains(
        key,
    )
}

/// Whether a public endpoint is acceptable: absent, empty, or a plain HTTP(S) address.
pub open spec fn endpoint_problem(settings: Map<Seq<char>, Seq<char>>) -> Option<Seq<char>> {
    if settings.contains_key("endpoint"@) && settings["endpoint"@].len() > 0 {
        match parsed_url(settings["endpoint"@]) {
            None => Some("endpoint 必须是有效 HTTP(S) 地址"@),
            Some(u) => if !(u.0 == "http"@ || u.0 == "https"@) || u.1.len() > 0 || u.2 || u.5 || u.6 {
                Some("公开 endpoint 不得包含账号密码、查询令牌或片段"@)
            } else {
                None
            },
        }
    } else {
        None
    }
}

/// The problems found in the public settings, in the order they are checked.
pub open spec fn public_problem(
    scheme: Seq<char>,
    root: Seq<char>,
    config: Seq<(String, String)>,
    secret_keys: Seq<Seq<char>>,
) -> Option<Seq<char>> {
    if !(exists|i: int| 0 <= i < 11 && (#[trigger] OPEN_DAL_SCHEMES@[i])@ == scheme) {
        Some("未编译或不允许的 OpenDAL 服务"@)
    } else if !valid_relative_path_spec(trim_char(root, '/')) {
        Some(path_escape_message())
    } else if exists|i: int| 0 <= i < config.len() && !public_key_allowed((#[trigger] config[i]).0@, secret_keys) {
        Some("机密配置不能写入公开设置"@)
    } else {
        endpoint_problem(pairs_map(config))
    }
}

/// Connection settings refused before any service is built, in the order they are checked.
pub open spec fn config_problem(
    scheme: Seq<char>,
    root: Seq<char>,
    config: Seq<(String, String)>,
    secret_keys: Seq<Seq<char>>,
    secrets: Map<Seq<char>, Seq<char>>,
) -> Option<Seq<char>> {
    match public_problem(scheme, root, config, secret_keys) {
        Some(m) => Some(m),
        None => if exists|i: int| 0 <= i < secret_keys.len() && !secrets.contains_key(#[trigger] secret_keys[i]) {
            Some("缺少 OpenDAL 机密字段"@)
        } else if exists|i: int| 0 <= i < secret_keys.len() && is_local_credential_key_spec(#[trigger] secret_keys[i]) {
            Some("不允许覆盖 root、分支或读取本地凭据文件"@)
        } else {
            None
        },
    }
}

/// The settings with each secret key set to its secret, in key order.
pub open spec fn with_secrets(
    settings: Map<Seq<char>, Seq<char>>,
    secret_keys: Seq<Seq<char>>,
    secrets: Map<Seq<char>, Seq<char>>,
) -> Map<Seq<char>, Seq<char>>
    decreases secret_keys.len(),
{
    if secret_keys.len() == 0 {
        settings
    } else {
        with_secrets(settings, secret_keys.drop_last(), secrets).insert(
            secret_keys.last(),
            secrets[secret_keys.last()],
        )
    }
}

/// The settings a GCS service gets besides the configured ones: no loading of credentials from
/// the environment, files or the machine, and the credential re-encoded.
pub open spec fn gcs_settings(settings: Map<Seq<char>, Seq<char>>) -> Option<Map<Seq<char>, Seq<char>>> {
    let locked = settings.insert("disable_config_load"@, "true"@).insert(
        "disable_vm_metadata"@,
        "true"@,
    );
    if locked.contains_key("credential"@) {
        match gcs_credential_text(locked["credential"@]) {
            Some(t) => Some(locked.insert("credential"@, t)),
            None => None,
        }
    } else {
        Some(locked)
    }
}

/// The settings handed to an object-store service, or the error that refuses them.
pub open spec fn service_settings(
    scheme: Seq<char>,
    root: Seq<char>,
    config: Seq<(String, String)>,
    secret_keys: Seq<Seq<char>>,
    secrets: Map<Seq<char>, Seq<char>>,
) -> Result<Map<Seq<char>, Seq<char>>, Seq<char>> {
    match config_problem(scheme, root, config, secret_keys, secrets) {
        Some(m) => Err(m),
        None => {
            let base = with_secrets(pairs_map(config), secret_keys, secrets);
            let full = if scheme == "gcs"@ {
                gcs_settings(base)
            } else {
                Some(base)
            };
            match full {
                Some(m) => Ok(m.insert("root"@, service_root(root))),
                None => Err(gcs_credential_message()),
            }
        },
    }
}

/// Checks the settings of an object-store source and builds those handed to the service:
/// the public settings, the declared secrets, the GCS lock-down and the confined root.
pub fn opendal_config(source: &OpenDalSource, secrets: &Vec<(String, String)>) -> (r: Result<
    Vec<(String, String)>,
    WebDavError,
>)
    ensures
        match service_settings(
            source.scheme@,
            source.root@,
            source.config@,
            strings_view(source.secret_keys@),
            pairs_map(secrets@),
        ) {
            Ok(m) => r is Ok && pairs_map(r->Ok_0@) == m,
            Err(e) => r matches Err(WebDavError::Remote(t)) && t@ == e,
        },
{
    let ghost keys = strings_view(source.secret_keys@);
    let ghost secret_map = pairs_map(secrets@);
    let schemes = OPEN_DAL_SCHEMES;
    if !str_in(source.scheme.as_str(), &schemes) {
        return Err(WebDavError::Remote(chars_text("未编译或不允许的 OpenDAL 服务")));
    }
    let root_chars = chars_of(source.root.as_str());
    let trimmed = trim_matches_char(root_chars.as_slice(), '/');
    let trimmed_text = string_of(trimmed.as_slice());
    match validate_relative_path(trimmed_text.as_str()) {
        Ok(()) => {},
        Err(_) => {
            return Err(WebDavError::Remote(string_of(path_escape_chars().as_slice())));
        },
    }
    let public = PUBLIC_CONFIG_KEYS;
    let mut i: usize = 0;
    while i < source.config.len()
        invariant
            i <= source.config@.len(),
            public@ == PUBLIC_CONFIG_KEYS@,
            exists|j: int| 0 <= j < 11 && (#[trigger] OPEN_DAL_SCHEMES@[j])@ == source.scheme@,
            valid_relative_path_spec(trim_char(source.root@, '/')),
            forall|k: int|
                0 <= k < i ==> public_key_allowed(
                    (#[trigger] source.config@[k]).0@,
                    strings_view(source.secret_keys@),
                ),
        decreases source.config@.len() - i,
    {
        let key = source.config[i].0.as_str();
        if !str_in(key, &public) || string_listed(&source.secret_keys, key) {
            proof {
                assert(!public_key_allowed(source.config@[i as int].0@, strings_view(source.secret_keys@)));
            }
            return Err(WebDavError::Remote(chars_text("机密配置不能写入公开设置")));
        }
        i = i + 1;
    }
    assert(public_problem(source.scheme@, source.root@, source.config@, keys) == endpoint_problem(
        pairs_map(source.config@),
    ));
    match pairs_get(&source.config, "endpoint") {
        Some(endpoint) => {
            if !endpoint.as_str().is_empty() {
                match parse_url(endpoint.as_str()) {
                    None => {
                        return Err(WebDavError::Remote(chars_text("endpoint 必须是有效 HTTP(S) 地址")));
                    },
                    Some(url) => {
                        if !(str_is(url.scheme.as_str(), "http") || str_is(url.scheme.as_str(), "https"))
                            || !url.username.as_str().is_empty() || url.has_password || url.has_query
                            || url.has_fragment {
                            return Err(
                                WebDavError::Remote(
                                    chars_text("公开 endpoint 不得包含账号密码、查询令牌或片段"),
                                ),
                            );
                        }
                    },
                }
            }
        },
        None => {},
    }
    assert(public_problem(source.scheme@, source.root@, source.config@, keys) is None);
    let mut values: Vec<String> = Vec::new();
    let mut k: usize = 0;
    while k < source.secret_keys.len()
        invariant
            public_problem(source.scheme@, source.root@, source.config@, keys) is None,
            k <= source.secret_keys@.len(),
            keys == strings_view(source.secret_keys@),
            secret_map == pairs_map(secrets@),
            values@.len() == k,
            forall|j: int|
                0 <= j < k ==> secret_map.contains_key(#[trigger] keys[j]) && secret_map[keys[j]]
                    == values@[j]@,
        decreases source.secret_keys@.len() - k,
    {
        match pairs_get(secrets, source.secret_keys[k].as_str()) {
            Some(v) => {
                values.push(v);
            },
            None => {
                proof {
                    assert(keys[k as int] == source.secret_keys@[k as int]@);
                }
                return Err(WebDavError::Remote(chars_text("缺少 OpenDAL 机密字段")));
            },
        }
        k = k + 1;
    }
    let mut config = copy_pairs(&source.config);
    let mut k: usize = 0;
    while k < source.secret_keys.len()
        invariant
            k <= source.secret_keys@.len(),
            keys == strings_view(source.secret_keys@),
            secret_map == pairs_map(secrets@),
            values@.len() == source.secret_keys@.len(),
            forall|j: int|
                0 <= j < source.secret_keys@.len() ==> secret_map.contains_key(#[trigger] keys[j])
                    && secret_map[keys[j]] == values@[j]@,
            public_problem(source.scheme@, source.root@, source.config@, keys) is None,
            forall|j: int| 0 <= j < k ==> !is_local_credential_key_spec(#[trigger] keys[j]),
            pairs_map(config@) == with_secrets(pairs_map(source.config@), keys.take(k as int), secret_map),
        decreases source.secret_keys@.len() - k,
    {
        let key = &source.secret_keys[k];
        proof {
            assert(keys[k as int] == key@);
        }
        if is_local_credential_key(key.as_str()) {
            proof {
                assert(forall|j: int| 0 <= j < keys.len() ==> secret_map.contains_key(#[trigger] keys[j]));
            }
            return Err(WebDavError::Remote(chars_text("不允许覆盖 root、分支或读取本地凭据文件")));
        }
        let pair = (key.clone(), values[k].clone());
        proof {
            lemma_pairs_map_push(config@, pair);
            assert(keys.take(k + 1).drop_last() =~= keys.take(k as int));
            assert(keys.take(k + 1).last() == keys[k as int]);
        }
        config.push(pair);
        k = k + 1;
    }
    proof {
        assert(keys.take(k as int) =~= keys);
        assert(forall|j: int| 0 <= j < keys.len() ==> secret_map.contains_key(#[trigger] keys[j]));
        assert(config_problem(source.scheme@, source.root@, source.config@, keys, secret_map) is None);
    }
    if str_is(source.scheme.as_str(), "gcs") {
        let first = (chars_text("disable_config_load"), chars_text("true"));
        proof {
            lemma_pairs_map_push(config@, first);
        }
        config.push(first);
        let second = (chars_text("disable_vm_metadata"), chars_text("true"));
        proof {
            lemma_pairs_map_push(config@, second);
        }
        config.push(second);
        match pairs_get(&config, "credential") {
            Some(value) => {
                let encoded = match gcs_credential_as_base64(value.as_str()) {
                    Ok(t) => t,
                    Err(e) => {
                        return Err(e);
                    },
                };
                let third = (chars_text("credential"), encoded);
                proof {
                    lemma_pairs_map_push(config@, third);
                }
                config.push(third);
            },
            None => {},
        }
    }
    let root_value = normalized_service_root(source.root.as_str());
    let last = (chars_text("root"), root_value);
    proof {
        lemma_pairs_map_push(config@, last);
    }
    config.push(last);
    Ok(config)
}

pub open spec fn missing_capability_message() -> Seq<char> {
    "该服务缺少读取、写入、列举或删除能力"@
}

/// Accepts a storage service only when it can read, write, list and delete; the flags are
/// the service's advertised capabilities.
pub fn require_capabilities(read: bool, write: bool, list: bool, delete: bool) -> (r: Result<
    (),
    WebDavError,
>)
    ensures
        r is Ok <==> (read && write && list && delete),
        r matches Err(e) ==> e matches WebDavError::Remote(m) && m@ == missing_capability_message(),
{
    if !(read && write && list && delete) {
        return Err(WebDavError::Remote(chars_text("该服务缺少读取、写入、列举或删除能力")));
    }
    Ok(())
}

} // verus!
