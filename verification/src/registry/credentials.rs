//! Registry credentials in the format of Docker's `config.json`.
//!
//! Only inline `auth` entries are read, no credential helpers. The file is
//! shared with other tools: what they keep in it stays when it is written.

use crate::path::{join_path, joined};
use crate::text::{
    chars_of, find_first, first_at, lemma_first_at, same_text, text_of, texts, utf8_text,
};
use vstd::hash_map::StringHashMap;
use vstd::prelude::*;
use vstd::string::*;
use vstd::utf8::{decode_utf8, encode_utf8, valid_utf8};

verus! {

// ── JSON ────────────────────────────────────────────────────────────────────

/// What `serde_json` reads of a JSON text: the members of the object under
/// `outer`, each with the string under `inner` in it, if there is one. There
/// are no members where `outer` is no object. `None` where the text is no JSON.
pub uninterp spec fn json_members(
    text: Seq<char>,
    outer: Seq<char>,
    inner: Seq<char>,
) -> Option<Map<Seq<char>, Option<Seq<char>>>>;

/// The members in a list; of those with the same name the last counts.
pub open spec fn members(v: Seq<(String, Option<String>)>) -> Map<Seq<char>, Option<Seq<char>>>
    decreases v.len(),
{
    if v.len() == 0 {
        Map::empty()
    } else {
        members(v.drop_last()).insert(
            v.last().0@,
            match v.last().1 {
                Some(s) => Some(s@),
                None => None,
            },
        )
    }
}

/// Whether no name comes twice.
pub open spec fn distinct_names(v: Seq<(String, Option<String>)>) -> bool {
    forall|i: int, j: int|
        0 <= i < j < v.len() ==> (#[trigger] v[i]).0@ != (#[trigger] v[j]).0@
}

/// Calls `serde_json::from_str` for a `serde_json::Value`, and takes the members
/// of the object under `outer` with the string under `inner` in each. Claims
/// that the outcome depends on the texts alone, and that no name comes twice.
#[verifier::external_body]
fn read_members(text: &str, outer: &str, inner: &str) -> (r: Option<Vec<(String, Option<String>)>>)
    ensures
        match r {
            Some(v) => json_members(text@, outer@, inner@) == Some(members(v@)) && distinct_names(
                v@,
            ),
            None => json_members(text@, outer@, inner@) is None,
        },
{
    let value: serde_json::Value = serde_json::from_str(text).ok()?;
    let mut list = Vec::new();
    for (name, member) in value[outer].as_object().into_iter().flatten() {
        list.push((name.clone(), member[inner].as_str().map(str::to_owned)));
    }
    Some(list)
}

/// The kinds of JSON values.
#[derive(Clone, Copy, Debug, PartialEq, Eq, Structural)]
pub enum JsonKind {
    Null,
    Bool,
    Number,
    Text,
    Array,
    Object,
}

/// The kind of the value that `serde_json` reads of a JSON text. `None` where
/// the text is no JSON.
pub uninterp spec fn json_kind(text: Seq<char>) -> Option<JsonKind>;

/// The kind of the value under `key` in what `serde_json` reads of a JSON text;
/// that of `null` where there is none. `None` where the text is no JSON.
pub uninterp spec fn json_member_kind(text: Seq<char>, key: Seq<char>) -> Option<JsonKind>;

/// Calls `serde_json::from_str` for a `serde_json::Value`, and tells its kind.
/// Claims that the kind depends on the text alone.
#[verifier::external_body]
fn value_kind(text: &str) -> (r: Option<JsonKind>)
    ensures
        r == json_kind(text@),
{
    match serde_json::from_str::<serde_json::Value>(text).ok()? {
        serde_json::Value::Null => Some(JsonKind::Null),
        serde_json::Value::Bool(_) => Some(JsonKind::Bool),
        serde_json::Value::Number(_) => Some(JsonKind::Number),
        serde_json::Value::String(_) => Some(JsonKind::Text),
        serde_json::Value::Array(_) => Some(JsonKind::Array),
        serde_json::Value::Object(_) => Some(JsonKind::Object),
    }
}

/// Calls `serde_json::from_str` for a `serde_json::Value`, indexes it with `key`,
/// and tells the kind of the value there. Claims that the kind depends on the
/// texts alone.
#[verifier::external_body]
fn member_kind(text: &str, key: &str) -> (r: Option<JsonKind>)
    ensures
        r == json_member_kind(text@, key@),
{
    match serde_json::from_str::<serde_json::Value>(text).ok()?[key] {
        serde_json::Value::Null => Some(JsonKind::Null),
        serde_json::Value::Bool(_) => Some(JsonKind::Bool),
        serde_json::Value::Number(_) => Some(JsonKind::Number),
        serde_json::Value::String(_) => Some(JsonKind::Text),
        serde_json::Value::Array(_) => Some(JsonKind::Array),
        serde_json::Value::Object(_) => Some(JsonKind::Object),
    }
}

/// Whether a JSON text can hold members under `outer`: it is `null`, or an
/// object whose value under `outer` is missing, `null` or an object.
pub open spec fn json_accepts(text: Seq<char>, outer: Seq<char>) -> bool {
    match json_kind(text) {
        Some(JsonKind::Null) => true,
        Some(JsonKind::Object) => json_member_kind(text, outer) == Some(JsonKind::Null)
            || json_member_kind(text, outer) == Some(JsonKind::Object),
        _ => false,
    }
}

/// Whether a JSON text can hold members under `outer`.
fn accepts_member(text: &str, outer: &str) -> (r: bool)
    ensures
        r == json_accepts(text@, outer@),
{
    match value_kind(text) {
        Some(JsonKind::Null) => true,
        Some(JsonKind::Object) => match member_kind(text, outer) {
            Some(JsonKind::Null) | Some(JsonKind::Object) => true,
            _ => false,
        },
        _ => false,
    }
}

/// What `serde_json` writes for the value at a path of keys, each a member of an
/// object, in what it reads of a JSON text. `None` where there is no such value.
pub uninterp spec fn json_value(text: Seq<char>, path: Seq<Seq<char>>) -> Option<Seq<char>>;

/// Calls `serde_json::from_str` for a `serde_json::Value`, follows the keys
/// through its objects, and calls `serde_json::to_string` of the value there.
/// Claims that the outcome depends on the text and the keys alone.
#[verifier::external_body]
fn read_value(text: &str, path: &Vec<String>) -> (r: Option<String>)
    ensures
        match r {
            Some(s) => json_value(text@, texts(path@)) == Some(s@),
            None => json_value(text@, texts(path@)) is None,
        },
{
    let config: serde_json::Value = serde_json::from_str(text).ok()?;
    let mut value = &config;
    for key in path {
        value = value.as_object()?.get(key)?;
    }
    serde_json::to_string(value).ok()
}

/// The JSON text of the value at a path of keys in a configuration file. `None`
/// where there is no such value.
pub fn config_value(text: &str, path: &Vec<String>) -> (r: Option<String>)
    ensures
        match r {
            Some(s) => json_value(text@, texts(path@)) == Some(s@),
            None => json_value(text@, texts(path@)) is None,
        },
{
    read_value(text, path)
}

/// Whether the value at a path of keys has nothing to do with `member` under
/// `outer`: it is neither there nor around it.
pub open spec fn apart_from(path: Seq<Seq<char>>, outer: Seq<char>, member: Seq<char>) -> bool {
    path.len() > 0 && (path[0] != outer || (path.len() > 1 && path[1] != member))
}

/// The members of a JSON text after `member` under `outer` has been set to an
/// object that has only the string `value` under `inner`.
pub open spec fn members_set(
    text: Seq<char>,
    outer: Seq<char>,
    member: Seq<char>,
    inner: Seq<char>,
    value: Seq<char>,
    o: Seq<char>,
    i: Seq<char>,
) -> Option<Map<Seq<char>, Option<Seq<char>>>> {
    match json_members(text, o, i) {
        None => None,
        Some(before) => if o != outer {
            Some(before)
        } else {
            Some(
                before.insert(
                    member,
                    if i == inner {
                        Some(value)
                    } else {
                        None
                    },
                ),
            )
        },
    }
}

/// Calls `serde_json::from_str` for a `serde_json::Value`, sets the value under
/// `outer` and `member` to an object with `value` under `inner`, and calls
/// `serde_json::to_string_pretty`. Claims that what is read of the new text is
/// what is read of the old one, but for that member: every value apart from it
/// is the same, of whatever kind. Indexing panics where a value is neither `null`
/// nor an object, which is left out.
#[verifier::external_body]
fn write_member(text: &str, outer: &str, member: &str, inner: &str, value: &str) -> (r: Option<
    String,
>)
    requires
        json_accepts(text@, outer@),
    ensures
        match r {
            Some(s) => forall|o: Seq<char>, i: Seq<char>| #[trigger]
                json_members(s@, o, i) == members_set(
                    text@,
                    outer@,
                    member@,
                    inner@,
                    value@,
                    o,
                    i,
                ),
            None => json_members(text@, outer@, inner@) is None,
        },
        r matches Some(s) ==> forall|path: Seq<Seq<char>>|
            apart_from(path, outer@, member@) ==> #[trigger] json_value(s@, path) == json_value(
                text@,
                path,
            ),
{
    let mut config: serde_json::Value = serde_json::from_str(text).ok()?;
    let entry = [(inner.to_owned(), serde_json::Value::from(value))];
    config[outer][member] = entry.into_iter().collect::<serde_json::Map<_, _>>().into();
    serde_json::to_string_pretty(&config).ok()
}

// ── Base64 ──────────────────────────────────────────────────────────────────

/// What the standard engine of the `base64` crate decodes from a text, or
/// `None` where it refuses the text.
pub uninterp spec fn base64_decoded(text: Seq<char>) -> Option<Seq<u8>>;

/// What the standard engine of the `base64` crate encodes bytes as.
pub uninterp spec fn base64_encoded(bytes: Seq<u8>) -> Seq<char>;

/// Calls `base64::Engine::decode` of the standard engine. Claims only that the
/// outcome depends on the text alone.
#[verifier::external_body]
fn base64_decode(text: &str) -> (r: Option<Vec<u8>>)
    ensures
        match r {
            Some(v) => base64_decoded(text@) == Some(v@),
            None => base64_decoded(text@) is None,
        },
{
    base64::Engine::decode(&base64::engine::general_purpose::STANDARD, text).ok()
}

/// Calls `base64::Engine::encode` of the standard engine. Claims that decoding
/// gives the bytes back, and that no bytes but none encode as an empty text.
#[verifier::external_body]
fn base64_encode(bytes: &[u8]) -> (r: String)
    ensures
        r@ == base64_encoded(bytes@),
        base64_decoded(r@) == Some(bytes@),
        bytes@.len() > 0 ==> r@.len() > 0,
{
    base64::Engine::encode(&base64::engine::general_purpose::STANDARD, bytes)
}

// ── Credentials ─────────────────────────────────────────────────────────────

/// Username and password for a registry.
#[derive(Debug)]
pub struct Credentials {
    pub username: String,
    pub password: String,
}

/// The values of [`Credentials`].
pub struct CredentialsView {
    pub username: Seq<char>,
    pub password: Seq<char>,
}

impl View for Credentials {
    type V = CredentialsView;

    open spec fn view(&self) -> CredentialsView {
        CredentialsView { username: self.username@, password: self.password@ }
    }
}

impl Clone for Credentials {
    fn clone(&self) -> (r: Self)
        ensures
            r@ == self@,
    {
        Credentials { username: self.username.clone(), password: self.password.clone() }
    }
}

/// The credentials that a text holds: what is before and behind its first colon.
pub open spec fn split_credentials(s: Seq<char>) -> Option<CredentialsView> {
    let colon = first_at(s, ':');
    if colon < s.len() {
        Some(CredentialsView { username: s.take(colon), password: s.skip(colon + 1) })
    } else {
        None
    }
}

/// The credentials in bytes that have been decoded.
pub open spec fn decoded_credentials(bytes: Option<Seq<u8>>) -> Option<CredentialsView> {
    match bytes {
        Some(b) => if valid_utf8(b) {
            split_credentials(decode_utf8(b))
        } else {
            None
        },
        None => None,
    }
}

/// The credentials in an `auth` entry, if it holds any.
pub open spec fn auth_credentials(auth: Option<Seq<char>>) -> Option<CredentialsView> {
    match auth {
        Some(a) => if a.len() == 0 {
            None
        } else {
            decoded_credentials(base64_decoded(a))
        },
        None => None,
    }
}

/// The credentials that are stored, by registry: entries without any are left
/// out.
pub open spec fn stored(entries: Map<Seq<char>, Option<Seq<char>>>) -> Map<
    Seq<char>,
    CredentialsView,
> {
    Map::new(
        |k: Seq<char>| entries.contains_key(k) && auth_credentials(entries[k]) is Some,
        |k: Seq<char>| auth_credentials(entries[k])->Some_0,
    )
}

/// The credentials in a list of registries with their `auth` entries; of entries
/// for the same registry the last that holds credentials counts.
pub open spec fn listed(v: Seq<(String, Option<String>)>) -> Map<Seq<char>, CredentialsView>
    decreases v.len(),
{
    if v.len() == 0 {
        Map::empty()
    } else {
        let before = listed(v.drop_last());
        let auth = match v.last().1 {
            Some(s) => Some(s@),
            None => None,
        };
        match auth_credentials(auth) {
            Some(c) => before.insert(v.last().0@, c),
            None => before,
        }
    }
}

proof fn lemma_members_names(v: Seq<(String, Option<String>)>, k: Seq<char>)
    ensures
        members(v).contains_key(k) <==> exists|i: int| 0 <= i < v.len() && (#[trigger] v[i]).0@ == k,
    decreases v.len(),
{
    if v.len() > 0 {
        let rest = v.drop_last();
        lemma_members_names(rest, k);
        if members(rest).contains_key(k) {
            let i = choose|i: int| 0 <= i < rest.len() && (#[trigger] rest[i]).0@ == k;
            assert(v[i].0@ == k);
        }
        if v.last().0@ == k {
            assert(v[v.len() - 1].0@ == k);
        }
        if exists|i: int| 0 <= i < v.len() && (#[trigger] v[i]).0@ == k {
            let i = choose|i: int| 0 <= i < v.len() && (#[trigger] v[i]).0@ == k;
            if i < rest.len() {
                assert(rest[i].0@ == k);
            }
        }
    }
}

proof fn lemma_listed(v: Seq<(String, Option<String>)>)
    requires
        distinct_names(v),
    ensures
        listed(v) == stored(members(v)),
    decreases v.len(),
{
    if v.len() == 0 {
        assert(listed(v) =~= stored(members(v)));
    } else {
        let rest = v.drop_last();
        let k = v.last().0@;
        lemma_listed(rest);
        lemma_members_names(rest, k);
        if members(rest).contains_key(k) {
            let i = choose|i: int| 0 <= i < rest.len() && (#[trigger] rest[i]).0@ == k;
            assert(v[i].0@ == v[v.len() - 1].0@);
        }
        assert(listed(v) =~= stored(members(v)));
    }
}

/// Why credentials cannot be loaded or saved.
#[derive(Clone, Copy, Debug, PartialEq, Eq, Structural)]
pub enum CredentialError {
    /// The file is no JSON.
    NotJson,
    /// The file, or what it holds under `auths`, is no object.
    NotAnObject,
}

/// The credentials in bytes that have been decoded from an `auth` entry.
pub fn credentials_from_bytes(bytes: Vec<u8>) -> (r: Option<Credentials>)
    ensures
        match r {
            Some(c) => decoded_credentials(Some(bytes@)) == Some(c@),
            None => decoded_credentials(Some(bytes@)) is None,
        },
{
    let text = match utf8_text(bytes) {
        Some(text) => text,
        None => return None,
    };
    let v = chars_of(text.as_str());
    let colon: usize = find_first(&v, ':');
    if colon >= v.len() {
        return None;
    }
    let username = text_of(&v, 0, colon);
    let password = text_of(&v, colon + 1, v.len());
    assert(username@ =~= text@.take(colon as int));
    assert(password@ =~= text@.skip(colon + 1));
    Some(Credentials { username, password })
}

fn decode_auth(auth: &Option<String>) -> (r: Option<Credentials>)
    ensures
        ({
            let a = match auth {
                Some(s) => Some(s@),
                None => None,
            };
            match r {
                Some(c) => auth_credentials(a) == Some(c@),
                None => auth_credentials(a) is None,
            }
        }),
{
    match auth {
        Some(encoded) => {
            if encoded.as_str().unicode_len() == 0 {
                return None;
            }
            match base64_decode(encoded.as_str()) {
                Some(bytes) => credentials_from_bytes(bytes),
                None => None,
            }
        },
        None => None,
    }
}

/// The text of an `auth` entry before encoding.
pub open spec fn auth_text(username: Seq<char>, password: Seq<char>) -> Seq<char> {
    username.push(':') + password
}

/// What is in the file, or an empty object where there is no file.
pub open spec fn config_text(config: Option<Seq<char>>) -> Seq<char> {
    match config {
        Some(text) => text,
        None => "{}"@,
    }
}

/// Credentials by registry.
pub struct CredentialStore {
    auths: StringHashMap<Credentials>,
}

impl View for CredentialStore {
    type V = Map<Seq<char>, CredentialsView>;

    closed spec fn view(&self) -> Map<Seq<char>, CredentialsView> {
        self.auths@.map_values(|c: Credentials| c@)
    }
}

impl Default for CredentialStore {
    fn default() -> (r: Self)
        ensures
            r@ == Map::<Seq<char>, CredentialsView>::empty(),
    {
        CredentialStore::new()
    }
}

/// The text of an optional string.
pub open spec fn optional_text(s: Option<&str>) -> Option<Seq<char>> {
    match s {
        Some(t) => Some(t@),
        None => None,
    }
}

impl CredentialStore {
    /// A store without credentials.
    pub fn new() -> (r: Self)
        ensures
            r@ == Map::<Seq<char>, CredentialsView>::empty(),
    {
        let r = CredentialStore { auths: StringHashMap::new() };
        assert(r@ =~= Map::empty());
        r
    }

    /// Load credentials from the text of the configuration file, if there is
    /// one.
    ///
    /// Without a file, or without `auths` in it, the store is empty. Entries
    /// that cannot be decoded are skipped.
    pub fn load(config: Option<&str>) -> (r: Result<Self, CredentialError>)
        ensures
            match config {
                None => r matches Ok(store) && store@ == Map::<
                    Seq<char>,
                    CredentialsView,
                >::empty(),
                Some(text) => match json_members(text@, "auths"@, "auth"@) {
                    Some(entries) => r matches Ok(store) && store@ == stored(entries),
                    None => r matches Err(e) && e == CredentialError::NotJson,
                },
            },
    {
        let text = match config {
            Some(text) => text,
            None => return Ok(CredentialStore::new()),
        };
        let list = match read_members(text, "auths", "auth") {
            Some(list) => list,
            None => return Err(CredentialError::NotJson),
        };
        Ok(CredentialStore::from_entries(&list))
    }

    /// The credentials in a list of registries with their `auth` entries; of
    /// entries for the same registry the last that can be decoded counts.
    pub fn from_entries(list: &Vec<(String, Option<String>)>) -> (r: Self)
        ensures
            r@ == listed(list@),
            distinct_names(list@) ==> r@ == stored(members(list@)),
    {
        let mut store = CredentialStore::new();
        assert(list@.take(0) =~= Seq::empty());
        assert(store@ =~= listed(list@.take(0)));
        for i in 0..list.len()
            invariant
                store@ == listed(list@.take(i as int)),
        {
            let ghost before = store@;
            assert(list@.take(i + 1).drop_last() =~= list@.take(i as int));
            if let Some(c) = decode_auth(&list[i].1) {
                let ghost k = list@[i as int].0@;
                let ghost x = c@;
                store.auths.insert(list[i].0.clone(), c);
                assert(store@ =~= before.insert(k, x));
            }
        }
        assert(list@.take(list@.len() as int) =~= list@);
        proof {
            if distinct_names(list@) {
                lemma_listed(list@);
            }
        }
        store
    }

    /// Look up the credentials for `registry`.
    ///
    /// For Docker Hub, Docker keeps them under a key of its own, which is tried
    /// second.
    pub fn lookup(&self, registry: &str) -> (r: Option<&Credentials>)
        ensures
            match r {
                Some(c) => found(self@, registry@) == Some(c@),
                None => found(self@, registry@) is None,
            },
            self@.contains_key(registry@) ==> (r matches Some(c) && c@ == self@[registry@]),
            !self@.contains_key(registry@) && registry@ != "registry-1.docker.io"@ ==> r is None,
            !self@.contains_key(registry@) && registry@ == "registry-1.docker.io"@ ==> match r {
                Some(c) => self@.contains_key("https://index.docker.io/v1/"@) && c@
                    == self@["https://index.docker.io/v1/"@],
                None => !self@.contains_key("https://index.docker.io/v1/"@),
            },
    {
        if let Some(c) = self.auths.get(registry) {
            assert(self@.contains_key(registry@));
            return Some(c);
        }
        assert(!self@.contains_key(registry@));
        if same_text(registry, "registry-1.docker.io") {
            let r = self.auths.get("https://index.docker.io/v1/");
            assert(self@.contains_key("https://index.docker.io/v1/"@) <==> r is Some);
            return r;
        }
        None
    }

    /// The text of the configuration file with credentials for `registry` in
    /// it, which replace what it has for the same registry.
    pub fn save(
        config: Option<&str>,
        registry: &str,
        username: &str,
        password: &str,
    ) -> (r: Result<String, CredentialError>)
        ensures
            ({
                let old = config_text(optional_text(config));
                if json_members(old, "auths"@, "auth"@) is None {
                    r matches Err(e) && e == CredentialError::NotJson
                } else if !json_accepts(old, "auths"@) {
                    r matches Err(e) && e == CredentialError::NotAnObject
                } else {
                    r matches Ok(text) && saves(text@, old, registry@, username@, password@)
                }
            }),
    {
        let old = match config {
            Some(text) => text,
            None => "{}",
        };
        if read_members(old, "auths", "auth").is_none() {
            return Err(CredentialError::NotJson);
        }
        if !accepts_member(old, "auths") {
            return Err(CredentialError::NotAnObject);
        }
        CredentialStore::save_into(old, registry, username, password)
    }

    /// The text of a configuration file that can hold credentials, with those
    /// for `registry` in it.
    pub fn save_into(config: &str, registry: &str, username: &str, password: &str) -> (r: Result<
        String,
        CredentialError,
    >)
        requires
            json_accepts(config@, "auths"@),
        ensures
            match r {
                Ok(text) => saves(text@, config@, registry@, username@, password@),
                Err(e) => e == CredentialError::NotJson && json_members(
                    config@,
                    "auths"@,
                    "auth"@,
                ) is None,
            },
    {
        let mut plain = username.to_owned();
        plain.append(":");
        plain.append(password);
        proof {
            reveal_strlit(":");
            assert(plain@ =~= auth_text(username@, password@));
            assert(encode_utf8(plain@).len() > 0) by {
                vstd::utf8::encode_utf8_decode_utf8(plain@);
                vstd::utf8::encode_utf8_decode_utf8(Seq::<char>::empty());
                if encode_utf8(plain@).len() == 0 {
                    assert(encode_utf8(plain@) =~= encode_utf8(Seq::<char>::empty()));
                }
            }
        }
        let auth = base64_encode(plain.as_str().as_bytes());
        match write_member(config, "auths", registry, "auth", auth.as_str()) {
            Some(text) => Ok(text),
            None => Err(CredentialError::NotJson),
        }
    }
}

/// The credentials for a registry.
pub open spec fn found(
    store: Map<Seq<char>, CredentialsView>,
    registry: Seq<char>,
) -> Option<CredentialsView> {
    if store.contains_key(registry) {
        Some(store[registry])
    } else if registry == "registry-1.docker.io"@ && store.contains_key(
        "https://index.docker.io/v1/"@,
    ) {
        Some(store["https://index.docker.io/v1/"@])
    } else {
        None
    }
}

/// Whether `text` is `config` with the `auth` entry of `registry` set to the
/// encoded credentials, and with everything else as it was.
pub open spec fn saves(
    text: Seq<char>,
    config: Seq<char>,
    registry: Seq<char>,
    username: Seq<char>,
    password: Seq<char>,
) -> bool {
    let auth = base64_encoded(encode_utf8(auth_text(username, password)));
    &&& base64_decoded(auth) == Some(encode_utf8(auth_text(username, password)))
    &&& auth.len() > 0
    &&& forall|o: Seq<char>, i: Seq<char>| #[trigger]
        json_members(text, o, i) == members_set(config, "auths"@, registry, "auth"@, auth, o, i)
    &&& forall|path: Seq<Seq<char>>|
        apart_from(path, "auths"@, registry) ==> #[trigger] json_value(text, path) == json_value(
            config,
            path,
        )
}

/// The path of the configuration file: in the directory that `DOCKER_CONFIG`
/// names, or else in `.docker` in the home directory, or in the current
/// directory where there is none.
pub fn docker_config_path(
    docker_config: Option<&str>,
    home: Option<&str>,
    user_profile: Option<&str>,
) -> (r: String)
    ensures
        r@ == match docker_config {
            Some(dir) => joined(dir@, "config.json"@),
            None => joined(
                joined(
                    match home {
                        Some(h) => h@,
                        None => match user_profile {
                            Some(u) => u@,
                            None => "."@,
                        },
                    },
                    ".docker"@,
                ),
                "config.json"@,
            ),
        },
{
    if let Some(dir) = docker_config {
        return join_path(dir, "config.json");
    }
    let base = match home {
        Some(h) => h,
        None => match user_profile {
            Some(u) => u,
            None => ".",
        },
    };
    join_path(join_path(base, ".docker").as_str(), "config.json")
}

// ── Laws ────────────────────────────────────────────────────────────────────

/// What is saved is loaded: after saving credentials for a registry, loading
/// gives them back, and those of every other registry as they were. A username
/// with a colon is left out: the first colon separates it from the password.
pub proof fn law_saved_credentials_are_loaded(
    text: Seq<char>,
    config: Seq<char>,
    registry: Seq<char>,
    username: Seq<char>,
    password: Seq<char>,
)
    requires
        saves(text, config, registry, username, password),
        json_members(config, "auths"@, "auth"@) is Some,
        !username.contains(':'),
    ensures
        json_members(text, "auths"@, "auth"@) is Some,
        stored(json_members(text, "auths"@, "auth"@)->Some_0) == stored(
            json_members(config, "auths"@, "auth"@)->Some_0,
        ).insert(registry, CredentialsView { username, password }),
{
    let before = json_members(config, "auths"@, "auth"@)->Some_0;
    let after = json_members(text, "auths"@, "auth"@)->Some_0;
    let plain = auth_text(username, password);
    let auth = base64_encoded(encode_utf8(plain));
    assert(json_members(text, "auths"@, "auth"@) == members_set(
        config,
        "auths"@,
        registry,
        "auth"@,
        auth,
        "auths"@,
        "auth"@,
    ));
    vstd::utf8::encode_utf8_valid_utf8(plain);
    vstd::utf8::encode_utf8_decode_utf8(plain);
    assert forall|j: int| 0 <= j < username.len() implies plain[j] != ':' by {
        assert(plain[j] == username[j]);
    }
    assert(plain[username.len() as int] == ':');
    lemma_first_at(plain, ':', username.len() as int);
    assert(plain.take(username.len() as int) =~= username);
    assert(plain.skip(username.len() + 1int) =~= password);
    let c = CredentialsView { username, password };
    assert(auth_credentials(Some(auth)) == Some(c));
    assert(stored(after) =~= stored(before).insert(registry, c));
}

/// Saving credentials leaves everything else in the file as it was: every value
/// under any other name than `auths`, and everything that is kept for any other
/// registry, of whatever kind.
pub proof fn law_saving_keeps_the_rest(
    text: Seq<char>,
    config: Seq<char>,
    registry: Seq<char>,
    username: Seq<char>,
    password: Seq<char>,
    name: Seq<char>,
    other: Seq<char>,
    rest: Seq<Seq<char>>,
)
    requires
        saves(text, config, registry, username, password),
    ensures
        name != "auths"@ ==> json_value(text, seq![name] + rest) == json_value(
            config,
            seq![name] + rest,
        ),
        other != registry ==> json_value(text, seq!["auths"@, other] + rest) == json_value(
            config,
            seq!["auths"@, other] + rest,
        ),
{
    assert((seq![name] + rest)[0] == name);
    assert((seq!["auths"@, other] + rest)[0] == "auths"@);
    assert((seq!["auths"@, other] + rest)[1] == other);
}

/// An entry holds the username and the password that a colon joins in its decoded
/// text; the first colon counts. Nothing else is stored.
pub proof fn law_entry_holds_its_credentials(
    entries: Map<Seq<char>, Option<Seq<char>>>,
    registry: Seq<char>,
    username: Seq<char>,
    password: Seq<char>,
)
    requires
        !username.contains(':'),
    ensures
        entries.contains_key(registry) && entries[registry] is Some
            && entries[registry]->Some_0.len() > 0 && base64_decoded(entries[registry]->Some_0)
            == Some(encode_utf8(username.push(':') + password)) ==> stored(entries).contains_key(
            registry,
        ) && stored(entries)[registry] == (CredentialsView { username, password }),
        stored(entries).contains_key(registry) ==> entries.contains_key(registry)
            && entries[registry] is Some && base64_decoded(entries[registry]->Some_0) is Some,
{
    let plain = username.push(':') + password;
    vstd::utf8::encode_utf8_valid_utf8(plain);
    vstd::utf8::encode_utf8_decode_utf8(plain);
    assert forall|j: int| 0 <= j < username.len() implies plain[j] != ':' by {
        assert(plain[j] == username[j]);
    }
    assert(plain[username.len() as int] == ':');
    lemma_first_at(plain, ':', username.len() as int);
    assert(plain.take(username.len() as int) =~= username);
    assert(plain.skip(username.len() + 1int) =~= password);
}

/// A text without a colon holds no credentials.
pub proof fn law_no_credentials_without_a_colon(text: Seq<char>)
    requires
        !text.contains(':'),
    ensures
        decoded_credentials(Some(encode_utf8(text))) is None,
{
    vstd::utf8::encode_utf8_valid_utf8(text);
    vstd::utf8::encode_utf8_decode_utf8(text);
    assert forall|j: int| 0 <= j < text.len() implies text[j] != ':' by {
        if text[j] == ':' {
            assert(text.contains(':'));
        }
    }
    lemma_first_at(text, ':', text.len() as int);
}

/// Of the entries for one registry the last that holds credentials counts, and
/// an entry leaves those of other registries as they are.
pub proof fn law_last_entry_counts(
    v: Seq<(String, Option<String>)>,
    entry: (String, Option<String>),
    other: Seq<char>,
)
    ensures
        ({
            let before = listed(v);
            let after = listed(v.push(entry));
            let auth = match entry.1 {
                Some(a) => Some(a@),
                None => None,
            };
            &&& auth_credentials(auth) matches Some(c) ==> after.contains_key(entry.0@)
                && after[entry.0@] == c
            &&& auth_credentials(auth) is None ==> after == before
            &&& other != entry.0@ ==> (after.contains_key(other) <==> before.contains_key(other))
                && (before.contains_key(other) ==> after[other] == before[other])
        }),
{
    assert(v.push(entry).drop_last() =~= v);
}

/// Credentials can be put into an empty configuration and into an object,
/// unless something else than an object stands where they go. They can be put
/// into nothing else.
pub proof fn law_objects_take_members(text: Seq<char>, outer: Seq<char>)
    ensures
        json_kind(text) == Some(JsonKind::Null) ==> json_accepts(text, outer),
        json_kind(text) == Some(JsonKind::Object) && json_member_kind(text, outer) == Some(
            JsonKind::Null,
        ) ==> json_accepts(text, outer),
        json_kind(text) == Some(JsonKind::Object) && json_member_kind(text, outer) == Some(
            JsonKind::Object,
        ) ==> json_accepts(text, outer),
        json_accepts(text, outer) ==> json_kind(text) == Some(JsonKind::Null) || json_kind(text)
            == Some(JsonKind::Object),
        json_accepts(text, outer) && json_kind(text) == Some(JsonKind::Object)
            ==> json_member_kind(text, outer) == Some(JsonKind::Null) || json_member_kind(
            text,
            outer,
        ) == Some(JsonKind::Object),
{
}

} // verus!
