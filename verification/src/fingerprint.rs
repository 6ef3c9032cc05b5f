//! The fingerprint that binds tested secrets to the source configuration they were tested
//! with: a new configuration must be tested before its secrets are used, and any change to
//! what the source reaches, or to the secrets, invalidates the test.
use crate::cloud::{pairs_view, CloudSourceInput};
use crate::json::{items_tree, members_tree, serialized_json, write_json, Json, JsonTree};
use crate::model::strings_view;
use crate::order::{sort_texts, stable_sort, text_before};
use crate::update::{hex_lower, sha256, sha256_hex};
use vstd::prelude::*;

verus! {

/// A source configuration as plain values.
pub struct SourceFields {
    pub id: Seq<char>,
    pub name: Seq<char>,
    pub provider: Seq<char>,
    pub endpoint: Seq<char>,
    pub username: Seq<char>,
    pub remote_path: Seq<char>,
    pub credential_ref: Seq<char>,
    pub repository: Seq<char>,
    pub branch: Seq<char>,
    pub scheme: Seq<char>,
    pub config: Seq<(Seq<char>, Seq<char>)>,
    pub secret_keys: Seq<Seq<char>>,
    pub sync_enabled: bool,
}

/// The fields of a source configuration.
pub open spec fn source_fields(s: CloudSourceInput) -> SourceFields {
    SourceFields {
        id: s.id@,
        name: s.name@,
        provider: s.provider@,
        endpoint: s.endpoint@,
        username: s.username@,
        remote_path: s.remote_path@,
        credential_ref: s.credential_ref@,
        repository: s.repository@,
        branch: s.branch@,
        scheme: s.scheme@,
        config: pairs_view(s.config@),
        secret_keys: strings_view(s.secret_keys@),
        sync_enabled: s.sync_enabled,
    }
}

/// Text pairs as the members of a JSON object of strings.
pub open spec fn text_members(pairs: Seq<(Seq<char>, Seq<char>)>) -> Seq<(Seq<char>, JsonTree)> {
    pairs.map_values(|p: (Seq<char>, Seq<char>)| (p.0, JsonTree::Str(p.1)))
}

/// Texts as the items of a JSON array of strings.
pub open spec fn text_items(texts: Seq<Seq<char>>) -> Seq<JsonTree> {
    texts.map_values(|t: Seq<char>| JsonTree::Str(t))
}

/// What the fingerprint is taken of: the pair of the source's configuration (in its
/// serialized field names, without the synchronization switch, and with the secret keys
/// in text order) and the secrets.
pub open spec fn fingerprint_tree(source: SourceFields, secrets: Seq<(Seq<char>, Seq<char>)>) -> JsonTree {
    let canonical = JsonTree::Object(
        seq![
            ("branch"@, JsonTree::Str(source.branch)),
            ("config"@, JsonTree::Object(text_members(source.config))),
            ("credentialRef"@, JsonTree::Str(source.credential_ref)),
            ("endpoint"@, JsonTree::Str(source.endpoint)),
            ("id"@, JsonTree::Str(source.id)),
            ("name"@, JsonTree::Str(source.name)),
            ("provider"@, JsonTree::Str(source.provider)),
            ("remotePath"@, JsonTree::Str(source.remote_path)),
            ("repository"@, JsonTree::Str(source.repository)),
            ("scheme"@, JsonTree::Str(source.scheme)),
            ("secretKeys"@, JsonTree::Array(text_items(stable_sort(source.secret_keys, text_before())))),
            ("username"@, JsonTree::Str(source.username)),
        ],
    );
    JsonTree::Array(seq![canonical, JsonTree::Object(text_members(secrets))])
}

/// The fingerprint itself: the lower-case hexadecimal SHA-256 of the serialized document.
pub open spec fn fingerprint_of(source: SourceFields, secrets: Seq<(Seq<char>, Seq<char>)>) -> Seq<char> {
    hex_lower(sha256(serialized_json(fingerprint_tree(source, secrets))))
}

fn text_json(s: &String) -> (r: Json)
    ensures
        r.tree() == JsonTree::Str(s@),
{
    Json::Str(s.clone())
}

fn pairs_json(pairs: &Vec<(String, String)>) -> (r: Json)
    ensures
        r.tree() == JsonTree::Object(text_members(pairs_view(pairs@))),
{
    let mut members: Vec<(String, Json)> = Vec::new();
    let mut k: usize = 0;
    while k < pairs.len()
        invariant
            k <= pairs@.len(),
            members_tree(members@) == text_members(pairs_view(pairs@)).take(k as int),
        decreases pairs@.len() - k,
    {
        let ghost prev = members@;
        members.push((pairs[k].0.clone(), Json::Str(pairs[k].1.clone())));
        proof {
            assert(members_tree(members@) =~= members_tree(prev).push(
                (pairs@[k as int].0@, JsonTree::Str(pairs@[k as int].1@)),
            ));
            assert(text_members(pairs_view(pairs@)).take(k + 1) =~= text_members(pairs_view(pairs@)).take(
                k as int,
            ).push((pairs@[k as int].0@, JsonTree::Str(pairs@[k as int].1@))));
        }
        k = k + 1;
    }
    proof {
        assert(text_members(pairs_view(pairs@)).take(pairs@.len() as int) =~= text_members(pairs_view(pairs@)));
    }
    Json::Object(members)
}

fn texts_json(texts: &Vec<String>) -> (r: Json)
    ensures
        r.tree() == JsonTree::Array(text_items(strings_view(texts@))),
{
    let mut items: Vec<Json> = Vec::new();
    let mut k: usize = 0;
    while k < texts.len()
        invariant
            k <= texts@.len(),
            items_tree(items@) == text_items(strings_view(texts@)).take(k as int),
        decreases texts@.len() - k,
    {
        let ghost prev = items@;
        items.push(Json::Str(texts[k].clone()));
        proof {
            assert(items_tree(items@) =~= items_tree(prev).push(JsonTree::Str(texts@[k as int]@)));
            assert(text_items(strings_view(texts@)).take(k + 1) =~= text_items(strings_view(texts@)).take(
                k as int,
            ).push(JsonTree::Str(texts@[k as int]@)));
        }
        k = k + 1;
    }
    proof {
        assert(text_items(strings_view(texts@)).take(texts@.len() as int) =~= text_items(strings_view(texts@)));
    }
    Json::Array(items)
}

fn key(s: &str) -> (r: String)
    ensures
        r@ == s@,
{
    s.to_owned()
}

/// The fingerprint of a source configuration and the secrets tested with it.
pub fn source_fingerprint(source: &CloudSourceInput, secrets: &Vec<(String, String)>) -> (r: String)
    ensures
        r@ == fingerprint_of(source_fields(*source), pairs_view(secrets@)),
{
    let keys = sort_texts(&source.secret_keys);
    let mut members: Vec<(String, Json)> = Vec::new();
    members.push((key("branch"), text_json(&source.branch)));
    members.push((key("config"), pairs_json(&source.config)));
    members.push((key("credentialRef"), text_json(&source.credential_ref)));
    members.push((key("endpoint"), text_json(&source.endpoint)));
    members.push((key("id"), text_json(&source.id)));
    members.push((key("name"), text_json(&source.name)));
    members.push((key("provider"), text_json(&source.provider)));
    members.push((key("remotePath"), text_json(&source.remote_path)));
    members.push((key("repository"), text_json(&source.repository)));
    members.push((key("scheme"), text_json(&source.scheme)));
    members.push((key("secretKeys"), texts_json(&keys)));
    members.push((key("username"), text_json(&source.username)));
    let ghost f = source_fields(*source);
    proof {
        assert(members_tree(members@) =~= seq![
            ("branch"@, JsonTree::Str(f.branch)),
            ("config"@, JsonTree::Object(text_members(f.config))),
            ("credentialRef"@, JsonTree::Str(f.credential_ref)),
            ("endpoint"@, JsonTree::Str(f.endpoint)),
            ("id"@, JsonTree::Str(f.id)),
            ("name"@, JsonTree::Str(f.name)),
            ("provider"@, JsonTree::Str(f.provider)),
            ("remotePath"@, JsonTree::Str(f.remote_path)),
            ("repository"@, JsonTree::Str(f.repository)),
            ("scheme"@, JsonTree::Str(f.scheme)),
            ("secretKeys"@, JsonTree::Array(text_items(stable_sort(f.secret_keys, text_before())))),
            ("username"@, JsonTree::Str(f.username)),
        ]);
    }
    let canonical = Json::Object(members);
    let secrets_doc = pairs_json(secrets);
    let ghost c = canonical.tree();
    let ghost d = secrets_doc.tree();
    let pair = vec![canonical, secrets_doc];
    proof {
        assert(items_tree(pair@) =~= seq![c, d]);
    }
    let doc = Json::Array(pair);
    let bytes = write_json(&doc);
    sha256_hex(bytes.as_slice())
}

/// The message when tested secrets no longer match their source configuration.
pub open spec fn changed_message() -> Seq<char> {
    "配置已更改，请重新测试并保存同步源"@
}

/// Checks that saved secrets were tested with the source as it is now configured: the
/// fingerprint saved with them must be that of the source and the secrets.
pub fn verify_bundle(source: &CloudSourceInput, secrets: &Vec<(String, String)>, fingerprint: &str) -> (r:
    Result<(), String>)
    ensures
        r is Ok <==> fingerprint@ == fingerprint_of(source_fields(*source), pairs_view(secrets@)),
        r matches Err(m) ==> m@ == changed_message(),
{
    let expected = source_fingerprint(source, secrets);
    if crate::remote::str_is(expected.as_str(), fingerprint) {
        Ok(())
    } else {
        Err("配置已更改，请重新测试并保存同步源".to_owned())
    }
}

/// Neither the order of the secret keys nor the synchronization switch counts: a source
/// that lists the same secret keys in another order, or is switched on or off, has the
/// same fingerprint.
pub proof fn lemma_fingerprint_ignores_key_order_and_switch(
    source: SourceFields,
    keys: Seq<Seq<char>>,
    sync_enabled: bool,
    secrets: Seq<(Seq<char>, Seq<char>)>,
)
    requires
        keys.to_multiset() == source.secret_keys.to_multiset(),
    ensures
        fingerprint_tree(SourceFields { secret_keys: keys, sync_enabled, ..source }, secrets) == fingerprint_tree(
            source,
            secrets,
        ),
{
    crate::order::lemma_text_order_total();
    crate::order::lemma_stable_sort_same_elements(keys, source.secret_keys, text_before());
}

/// In particular, reversing the secret keys or flipping the synchronization switch leaves
/// the fingerprint as it was.
pub proof fn lemma_fingerprint_ignores_reversed_keys(source: SourceFields, secrets: Seq<(Seq<char>, Seq<char>)>)
    ensures
        fingerprint_tree(SourceFields { secret_keys: source.secret_keys.reverse(), ..source }, secrets)
            == fingerprint_tree(source, secrets),
        fingerprint_tree(SourceFields { sync_enabled: !source.sync_enabled, ..source }, secrets)
            == fingerprint_tree(source, secrets),
{
    crate::order::lemma_reverse_same_elements(source.secret_keys);
    lemma_fingerprint_ignores_key_order_and_switch(
        source,
        source.secret_keys.reverse(),
        source.sync_enabled,
        secrets,
    );
    lemma_fingerprint_ignores_key_order_and_switch(source, source.secret_keys, !source.sync_enabled, secrets);
}

} // verus!
