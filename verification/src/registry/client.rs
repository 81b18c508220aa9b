//! What a registry client requests and how it goes on from an answer.
//!
//! The client itself sends the requests and writes the blobs. It asks here for
//! the URLs, whether to authenticate, which manifest of an index to take, in
//! which order to download, and whether a blob is the right one.

use crate::digest::{
    check_digest, content_digest, digest_check, digest_text, hex_text, sha256_of, DigestCheck,
};
use crate::image::{digest_hex, is_index_media_type, is_index_type};
use crate::packer::{meta_views, LayerMeta, MetaView};
use crate::registry::auth::{
    challenge, law_token_url_spans_realm_and_scope, token_url_of, BearerChallenge, ChallengeView,
};
use crate::registry::credentials::{found, CredentialStore, Credentials, CredentialsView};
use crate::registry::reference::{
    law_registry_is_the_first_component, law_tag_is_behind_the_colon, only_ports, parsed,
    ImageReference, ImageView, Ref, RefView,
};
use crate::text::{
    chars_of, find_first, first_at, is_white_space, law_first_part_is_before_the_separator,
    law_number_has_its_value, law_white_space_around_goes, left_padded,
    lemma_split_on_nonempty, number, number_text, pad_left, same_text, split, split_on, text_of,
    texts, trim, trim_end_char, trim_end_matches, trimmed, value_of,
};
use vstd::hash_map::StringHashMap;
use vstd::prelude::*;
use vstd::string::*;

verus! {

// ── URLs ────────────────────────────────────────────────────────────────────

/// Where registries are reached.
pub struct Endpoints {
    mirror: Option<String>,
}

impl View for Endpoints {
    type V = Option<Seq<char>>;

    /// The base URL that stands for Docker Hub, if a mirror is set.
    closed spec fn view(&self) -> Option<Seq<char>> {
        match self.mirror {
            Some(m) => Some(m@),
            None => None,
        }
    }
}

/// The base URL of a registry.
pub open spec fn base_url_of(mirror: Option<Seq<char>>, registry: Seq<char>) -> Seq<char> {
    match mirror {
        Some(m) => if registry == "registry-1.docker.io"@ {
            m
        } else {
            "https://"@ + registry
        },
        None => "https://"@ + registry,
    }
}

/// The URL of an image's manifest.
pub open spec fn manifest_url_of(mirror: Option<Seq<char>>, i: ImageView) -> Seq<char> {
    base_url_of(mirror, i.registry) + "/v2/"@ + i.repository + "/manifests/"@ + i.reference.text()
}

/// The URL of a blob of an image's repository.
pub open spec fn blob_url_of(mirror: Option<Seq<char>>, i: ImageView, digest: Seq<char>) -> Seq<
    char,
> {
    base_url_of(mirror, i.registry) + "/v2/"@ + i.repository + "/blobs/"@ + digest
}

impl Endpoints {
    /// Endpoints with an optional mirror of Docker Hub. Slashes at the end of
    /// the mirror's URL do not count.
    pub fn new(mirror: Option<&str>) -> (r: Self)
        ensures
            r@ == match mirror {
                Some(m) => Some(trim_end_char(m@, '/')),
                None => None,
            },
    {
        Endpoints {
            mirror: match mirror {
                Some(m) => Some(trim_end_matches(m, '/')),
                None => None,
            },
        }
    }

    /// The base URL of `registry`: the mirror for Docker Hub, if one is set,
    /// and HTTPS to the registry for everything else.
    pub fn base_url(&self, registry: &str) -> (r: String)
        ensures
            r@ == base_url_of(self@, registry@),
            registry@ != "registry-1.docker.io"@ || self@ is None ==> r@ == "https://"@ + registry@,
            registry@ == "registry-1.docker.io"@ && self@ is Some ==> r@ == self@->Some_0,
    {
        if let Some(mirror) = &self.mirror {
            if same_text(registry, "registry-1.docker.io") {
                return mirror.clone();
            }
        }
        let mut r = "https://".to_owned();
        r.append(registry);
        r
    }

    /// The URL of an image's manifest.
    pub fn manifest_url(&self, image: &ImageReference) -> (r: String)
        ensures
            r@ == manifest_url_of(self@, image@),
            self@ is None ==> r@ == "https://"@ + image.registry@ + "/v2/"@ + image.repository@
                + "/manifests/"@ + match image.reference {
                Ref::Tag(t) => t@,
                Ref::Digest(d) => d@,
            },
    {
        let mut r = self.base_url(image.registry.as_str());
        r.append("/v2/");
        r.append(image.repository.as_str());
        r.append("/manifests/");
        r.append(image.reference_str());
        r
    }

    /// The URL of a blob of an image's repository.
    pub fn blob_url(&self, image: &ImageReference, digest: &str) -> (r: String)
        ensures
            r@ == blob_url_of(self@, image@, digest@),
            self@ is None ==> r@ == "https://"@ + image.registry@ + "/v2/"@ + image.repository@
                + "/blobs/"@ + digest@,
    {
        let mut r = self.base_url(image.registry.as_str());
        r.append("/v2/");
        r.append(image.repository.as_str());
        r.append("/blobs/");
        r.append(digest);
        r
    }
}

/// The manifest types that are accepted, in order of preference.
pub fn manifest_accept() -> (r: &'static str)
    ensures
        r@
            == "application/vnd.oci.image.index.v1+json,application/vnd.oci.image.manifest.v1+json,application/vnd.docker.distribution.manifest.list.v2+json,application/vnd.docker.distribution.manifest.v2+json,application/json"@,
{
    "application/vnd.oci.image.index.v1+json,application/vnd.oci.image.manifest.v1+json,application/vnd.docker.distribution.manifest.list.v2+json,application/vnd.docker.distribution.manifest.v2+json,application/json"
}

// ── Authentication ──────────────────────────────────────────────────────────

/// What follows from an answer.
pub enum ResponseAction {
    /// The answer is what was asked for.
    Accept,
    /// The request is to be repeated with a token.
    Authenticate(BearerChallenge),
    /// A token is wanted, but the answer does not say how to get one.
    NoChallenge,
    /// The request failed.
    Fail,
}

/// What follows from an answer with the given status and challenge header. Only
/// the answer to the first request, which is sent without a token, leads to one
/// with a token.
pub open spec fn response_action_is(
    status: u16,
    header: Seq<char>,
    first: bool,
    action: ResponseAction,
) -> bool {
    if first && status == 401 {
        match challenge(header) {
            Some(c) => action matches ResponseAction::Authenticate(b) && b@ == c,
            None => action is NoChallenge,
        }
    } else if 200 <= status < 300 {
        action is Accept
    } else {
        action is Fail
    }
}

/// What follows from an answer with the given status and `WWW-Authenticate`
/// header.
pub fn judge_response(status: u16, www_authenticate: Option<&str>, first: bool) -> (r:
    ResponseAction)
    ensures
        response_action_is(
            status,
            match www_authenticate {
                Some(h) => h@,
                None => ""@,
            },
            first,
            r,
        ),
        first && status == 401 ==> r is Authenticate || r is NoChallenge,
        !(first && status == 401) ==> (r is Accept <==> 200 <= status <= 299) && (r is Accept
            || r is Fail),
        www_authenticate is None ==> !(r is Authenticate),
        r matches ResponseAction::Authenticate(b) ==> www_authenticate is Some && challenge(
            www_authenticate->Some_0@,
        ) == Some(b@),
        r is NoChallenge && www_authenticate is Some ==> challenge(
            www_authenticate->Some_0@,
        ) is None,
{
    proof {
        reveal_strlit("");
        reveal_strlit("Bearer ");
    }
    if first && status == 401 {
        let header = match www_authenticate {
            Some(h) => h,
            None => "",
        };
        match BearerChallenge::parse(header) {
            Some(c) => ResponseAction::Authenticate(c),
            None => ResponseAction::NoChallenge,
        }
    } else if 200 <= status && status < 300 {
        ResponseAction::Accept
    } else {
        ResponseAction::Fail
    }
}

/// The key of a token in the cache.
pub open spec fn token_key(registry: Seq<char>, scope: Seq<char>) -> Seq<char> {
    registry.push('\n') + scope
}

/// Tokens by registry and scope.
pub struct TokenCache {
    tokens: StringHashMap<String>,
}

impl View for TokenCache {
    type V = Map<Seq<char>, Seq<char>>;

    closed spec fn view(&self) -> Map<Seq<char>, Seq<char>> {
        self.tokens@.map_values(|s: String| s@)
    }
}

fn token_key_string(registry: &str, scope: &str) -> (r: String)
    ensures
        r@ == token_key(registry@, scope@),
{
    let mut r = registry.to_owned();
    r.push('\n');
    r.append(scope);
    r
}

/// How a token is had.
pub enum TokenStep {
    /// The token is known.
    Known(String),
    /// The token is to be requested from the URL, with the credentials if there
    /// are any.
    Request { url: String, credentials: Option<Credentials> },
}

/// How a token is had: from the cache, or by a request with the credentials
/// that are stored for the registry.
pub open spec fn token_step_is(
    cache: Map<Seq<char>, Seq<char>>,
    store: Map<Seq<char>, CredentialsView>,
    c: ChallengeView,
    registry: Seq<char>,
    scope: Seq<char>,
    step: TokenStep,
) -> bool {
    if cache.contains_key(token_key(registry, scope)) {
        step matches TokenStep::Known(t) && t@ == cache[token_key(registry, scope)]
    } else {
        step matches TokenStep::Request { url, credentials } && url@ == token_url_of(c, scope)
            && match found(store, registry) {
            Some(want) => credentials matches Some(have) && have@ == want,
            None => credentials is None,
        }
    }
}

impl TokenCache {
    /// A cache without tokens.
    pub fn new() -> (r: Self)
        ensures
            r@ == Map::<Seq<char>, Seq<char>>::empty(),
    {
        let r = TokenCache { tokens: StringHashMap::new() };
        assert(r@ =~= Map::empty());
        r
    }

    /// Remember a token.
    pub fn insert(&mut self, registry: &str, scope: &str, token: String)
        ensures
            final(self)@ == old(self)@.insert(token_key(registry@, scope@), token@),
    {
        let ghost before = self@;
        let ghost t = token@;
        self.tokens.insert(token_key_string(registry, scope), token);
        assert(self@ =~= before.insert(token_key(registry@, scope@), t));
    }

    /// How a token for `scope` at `registry` is had after a challenge.
    pub fn step(
        &self,
        store: &CredentialStore,
        challenge: &BearerChallenge,
        registry: &str,
        scope: &str,
    ) -> (r: TokenStep)
        ensures
            token_step_is(self@, store@, challenge@, registry@, scope@, r),
    {
        let key = token_key_string(registry, scope);
        if let Some(t) = self.tokens.get(key.as_str()) {
            assert(self@.contains_key(key@));
            return TokenStep::Known(t.clone());
        }
        assert(!self@.contains_key(key@));
        let credentials = match store.lookup(registry) {
            Some(c) => Some(c.clone()),
            None => None,
        };
        TokenStep::Request { url: challenge.token_url(scope), credentials }
    }
}

/// The token in an answer that may have it under two names, of which the first
/// counts.
pub fn token_of(token: Option<String>, access_token: Option<String>) -> (r: Option<String>)
    ensures
        r == match token {
            Some(t) => Some(t),
            None => access_token,
        },
{
    match token {
        Some(t) => Some(t),
        None => access_token,
    }
}

/// The start of an answer's body, for an error message.
pub fn snippet(body: &str) -> (r: String)
    ensures
        r@ == body@.take(
            if body@.len() < 300 {
                body@.len() as int
            } else {
                300
            },
        ),
{
    let v = chars_of(body);
    let n: usize = if v.len() < 300 {
        v.len()
    } else {
        300
    };
    let r = text_of(&v, 0, n);
    assert(r@ =~= body@.take(n as int));
    r
}

// ── Manifests ───────────────────────────────────────────────────────────────

/// A platform that an image is for.
#[derive(Debug)]
pub struct RawPlatform {
    pub os: String,
    pub architecture: String,
}

/// A descriptor as a registry sends it.
#[derive(Debug)]
pub struct RawDescriptor {
    pub media_type: String,
    pub digest: String,
    pub size: u64,
    pub platform: Option<RawPlatform>,
}

/// The media type in a content type header: what is before the parameters.
pub open spec fn media_type_of(header: Seq<char>) -> Seq<char> {
    trimmed(split_on(header, ';')[0])
}

/// The media type in a `Content-Type` header.
pub fn content_type(header: Option<&str>) -> (r: String)
    ensures
        r@ == media_type_of(
            match header {
                Some(h) => h@,
                None => ""@,
            },
        ),
{
    let header = match header {
        Some(h) => h,
        None => "",
    };
    let parts = split(header, ';');
    proof {
        lemma_split_on_nonempty(header@, ';');
        assert(texts(parts@).len() == parts@.len());
        assert(texts(parts@)[0] == parts@[0]@);
    }
    trim(parts[0].as_str())
}

/// Whether a descriptor is for a platform.
pub open spec fn is_for(d: RawDescriptor, os: Seq<char>, arch: Seq<char>) -> bool {
    d.platform matches Some(p) && p.os@ == os && p.architecture@ == arch
}

/// The position of the first descriptor for a platform, or the length.
pub open spec fn platform_at(descs: Seq<RawDescriptor>, os: Seq<char>, arch: Seq<char>) -> int
    decreases descs.len(),
{
    if descs.len() == 0 || is_for(descs[0], os, arch) {
        0
    } else {
        1 + platform_at(descs.drop_first(), os, arch)
    }
}

/// Select the first descriptor whose platform is `os` and `arch`.
pub fn select_platform<'a>(descs: &'a Vec<RawDescriptor>, os: &str, arch: &str) -> (r: Option<
    &'a RawDescriptor,
>)
    ensures
        match r {
            Some(d) => platform_at(descs@, os@, arch@) < descs@.len() && *d
                == descs@[platform_at(descs@, os@, arch@)],
            None => platform_at(descs@, os@, arch@) == descs@.len(),
        },
        match r {
            Some(d) => exists|i: int|
                0 <= i < descs@.len() && *d == #[trigger] descs@[i] && (d.platform matches Some(p)
                    && p.os@ == os@ && p.architecture@ == arch@) && forall|j: int|
                    0 <= j < i ==> !((#[trigger] descs@[j]).platform matches Some(p) && p.os@ == os@
                        && p.architecture@ == arch@),
            None => forall|j: int|
                0 <= j < descs@.len() ==> !((#[trigger] descs@[j]).platform matches Some(p) && p.os@
                    == os@ && p.architecture@ == arch@),
        },
{
    assert(descs@.skip(0) =~= descs@);
    for i in 0..descs.len()
        invariant
            platform_at(descs@, os@, arch@) == i + platform_at(descs@.skip(i as int), os@, arch@),
            forall|j: int|
                0 <= j < i ==> !((#[trigger] descs@[j]).platform matches Some(p) && p.os@ == os@
                    && p.architecture@ == arch@),
    {
        let desc = &descs[i];
        assert(descs@.skip(i as int)[0] == *desc);
        if let Some(p) = &desc.platform {
            if same_text(p.os.as_str(), os) && same_text(p.architecture.as_str(), arch) {
                assert(platform_at(descs@, os@, arch@) == i);
                return Some(desc);
            }
        }
        assert(descs@.skip(i as int).drop_first() =~= descs@.skip(i + 1));
    }
    None
}

/// What follows when a manifest has been fetched.
pub enum ManifestStep {
    /// The manifest is that of a single image, with this digest.
    Resolved { digest: String },
    /// The manifest of the platform is to be fetched.
    Fetch(ImageReference),
    /// The index has nothing for the platform.
    NoPlatform,
}

/// What follows when the manifest of `image` has been fetched: an index leads to
/// the manifest of the platform, anything else is the manifest.
pub open spec fn manifest_step_is(
    image: ImageView,
    media_type: Seq<char>,
    body: Seq<u8>,
    index: Seq<RawDescriptor>,
    os: Seq<char>,
    arch: Seq<char>,
    step: ManifestStep,
) -> bool {
    if is_index_type(media_type) {
        let i = platform_at(index, os, arch);
        if i < index.len() {
            step matches ManifestStep::Fetch(next) && next@ == (ImageView {
                reference: RefView::Digest(index[i].digest@),
                ..image
            })
        } else {
            step is NoPlatform
        }
    } else {
        step matches ManifestStep::Resolved { digest } && digest@ == digest_text(body)
    }
}

/// What follows when the manifest of `image` has been fetched. `index` holds
/// the manifests that are listed, where it is an index.
pub fn after_manifest(
    image: &ImageReference,
    media_type: &str,
    body: &[u8],
    index: &Vec<RawDescriptor>,
    os: &str,
    arch: &str,
) -> (r: ManifestStep)
    ensures
        manifest_step_is(image@, media_type@, body@, index@, os@, arch@, r),
        r is Resolved <==> media_type@ != "application/vnd.oci.image.index.v1+json"@ && media_type@
            != "application/vnd.docker.distribution.manifest.list.v2+json"@,
        r matches ManifestStep::Resolved { digest } ==> digest@ == "sha256:"@ + hex_text(
            sha256_of(body@),
        ),
        r matches ManifestStep::Fetch(next) ==> next.registry@ == image.registry@
            && next.repository@ == image.repository@ && exists|i: int|
            0 <= i < index@.len() && next.reference@ == RefView::Digest(
                (#[trigger] index@[i]).digest@,
            ) && (index@[i].platform matches Some(p) && p.os@ == os@ && p.architecture@ == arch@)
                && forall|j: int|
                0 <= j < i ==> !((#[trigger] index@[j]).platform matches Some(p) && p.os@ == os@
                    && p.architecture@ == arch@),
        r is NoPlatform ==> forall|j: int|
            0 <= j < index@.len() ==> !((#[trigger] index@[j]).platform matches Some(p) && p.os@
                == os@ && p.architecture@ == arch@),
{
    if is_index_media_type(media_type) {
        match select_platform(index, os, arch) {
            Some(d) => ManifestStep::Fetch(image.with_digest(d.digest.as_str())),
            None => ManifestStep::NoPlatform,
        }
    } else {
        ManifestStep::Resolved { digest: content_digest(body) }
    }
}

// ── Downloads ───────────────────────────────────────────────────────────────

/// What is to be done about a blob that may be there already.
#[derive(Clone, Copy, Debug, PartialEq, Eq, Structural)]
pub enum LocalBlob {
    /// Nothing is there: download it.
    Download,
    /// The blob is there and whole.
    Cached,
    /// Something else is there: remove it and download the blob.
    Replace,
}

/// What is to be done about a blob, given whether a file is there and its hash.
pub open spec fn local_blob_of(exists: bool, digest: Seq<char>, actual: Seq<char>) -> LocalBlob {
    if !exists {
        LocalBlob::Download
    } else {
        match digest_check(digest, actual) {
            DigestCheck::Match => LocalBlob::Cached,
            DigestCheck::Mismatch => LocalBlob::Replace,
            DigestCheck::Unsupported => LocalBlob::Download,
        }
    }
}

/// What is to be done about a blob, given whether a file is there and the hash
/// of the file in hex.
pub fn judge_local_blob(exists: bool, digest: &str, actual: &str) -> (r: LocalBlob)
    ensures
        r == local_blob_of(exists, digest@, actual@),
        r is Cached <==> exists && digest@ == "sha256:"@ + actual@,
        r is Replace <==> exists && "sha256:"@.is_prefix_of(digest@) && digest@ != "sha256:"@
            + actual@,
{
    if !exists {
        return LocalBlob::Download;
    }
    match check_digest(digest, actual) {
        DigestCheck::Match => LocalBlob::Cached,
        DigestCheck::Mismatch => LocalBlob::Replace,
        DigestCheck::Unsupported => LocalBlob::Download,
    }
}

/// How many downloads run at once: at least one, and no more than there are
/// layers.
pub open spec fn workers(concurrency: nat, total: nat) -> nat {
    let wanted = if concurrency == 0 {
        1
    } else {
        concurrency
    };
    if wanted <= total {
        wanted
    } else {
        total
    }
}

/// How many downloads run at once: at least one, and no more than there are
/// layers.
pub fn worker_count(concurrency: usize, total: usize) -> (r: usize)
    ensures
        r == workers(concurrency as nat, total as nat),
        r <= total,
        total > 0 ==> r >= 1,
        concurrency > 0 ==> r <= concurrency,
        r == total || r == concurrency || (concurrency == 0 && r == 1),
{
    let wanted: usize = if concurrency == 0 {
        1
    } else {
        concurrency
    };
    if wanted <= total {
        wanted
    } else {
        total
    }
}

/// The metadata of layers in the order of the manifest. `None` where there are
/// no layers, as when the platform is the wrong one.
pub fn layer_metas(layers: &Vec<RawDescriptor>) -> (r: Option<Vec<LayerMeta>>)
    ensures
        match r {
            Some(v) => layers@.len() > 0 && meta_views(v@) == Seq::new(
                layers@.len(),
                |i: int| MetaView { index: i as nat, media_type: layers@[i].media_type@ },
            ),
            None => layers@.len() == 0,
        },
{
    if layers.len() == 0 {
        return None;
    }
    let mut v: Vec<LayerMeta> = Vec::new();
    for i in 0..layers.len()
        invariant
            meta_views(v@) == Seq::new(
                i as nat,
                |j: int| MetaView { index: j as nat, media_type: layers@[j].media_type@ },
            ),
    {
        let ghost before = meta_views(v@);
        let meta = LayerMeta { index: i, media_type: layers[i].media_type.clone() };
        let ghost m = meta@;
        v.push(meta);
        assert(meta_views(v@) =~= before.push(m));
        assert(meta_views(v@) =~= Seq::new(
            (i + 1) as nat,
            |j: int| MetaView { index: j as nat, media_type: layers@[j].media_type@ },
        ));
    }
    Some(v)
}

/// The start of a digest, for display.
pub open spec fn abbreviated(digest: Seq<char>) -> Seq<char> {
    if digest.len() <= 19 {
        digest
    } else {
        digest.take(19)
    }
}

/// The first 19 characters of a digest: the algorithm and twelve hex digits.
pub fn abbrev(digest: &str) -> (r: String)
    ensures
        r@ == abbreviated(digest@),
        r@.is_prefix_of(digest@),
        r@.len() == if digest@.len() < 19 {
            digest@.len()
        } else {
            19
        },
{
    let v = chars_of(digest);
    let n: usize = if v.len() <= 19 {
        v.len()
    } else {
        19
    };
    let r = text_of(&v, 0, n);
    assert(r@ =~= abbreviated(digest@));
    r
}

/// The label of layer `i` of `total`: its position, counted from one, in `width`
/// columns, and its digest.
pub open spec fn position_label(i: nat, total: nat, width: nat, digest: Seq<char>) -> Seq<char> {
    "["@ + left_padded(number_text(i + 1, 10), ' ', width) + "/"@ + left_padded(
        number_text(total, 10),
        ' ',
        width,
    ) + "] "@ + abbreviated(digest)
}

/// The label of a layer's download: its position, counted from one, in `width`
/// columns, and its digest.
pub fn layer_label(index: usize, total: usize, width: usize, digest: &str) -> (r: String)
    requires
        index < total,
    ensures
        r@ == position_label(index as nat, total as nat, width as nat, digest@),
        r@ == "["@ + left_padded(number_text((index + 1) as nat, 10), ' ', width as nat) + "/"@
            + left_padded(number_text(total as nat, 10), ' ', width as nat) + "] "@ + abbreviated(
            digest@,
        ),
        width == 0 ==> r@ == "["@ + number_text((index + 1) as nat, 10) + "/"@ + number_text(
            total as nat,
            10,
        ) + "] "@ + abbreviated(digest@),
{
    let mut r = "[".to_owned();
    r.append(pad_left(number((index + 1) as u64, 10).as_str(), ' ', width).as_str());
    r.append("/");
    r.append(pad_left(number(total as u64, 10).as_str(), ' ', width).as_str());
    r.append("] ");
    r.append(abbrev(digest).as_str());
    r
}

// ── Image layout ────────────────────────────────────────────────────────────

/// What `serde_json` writes for a string.
pub uninterp spec fn json_string(s: Seq<char>) -> Seq<char>;

/// Calls `serde_json::Value::to_string` of a string value. Claims only that the
/// result depends on the string alone.
#[verifier::external_body]
fn quote_json(s: &str) -> (r: String)
    ensures
        r@ == json_string(s@),
{
    serde_json::Value::from(s).to_string()
}

/// The marker file of an OCI image layout.
pub fn layout_document() -> (r: &'static str)
    ensures
        r@ == "{\"imageLayoutVersion\":\"1.0.0\"}"@,
{
    "{\"imageLayoutVersion\":\"1.0.0\"}"
}

/// The text of an index that lists one manifest.
pub open spec fn index_text(media_type: Seq<char>, digest: Seq<char>, size: nat) -> Seq<char> {
    "{\n  \"manifests\": [\n    {\n      \"digest\": "@ + json_string(digest)
        + ",\n      \"mediaType\": "@ + json_string(media_type) + ",\n      \"size\": "@
        + number_text(size, 10)
        + "\n    }\n  ],\n  \"mediaType\": \"application/vnd.oci.image.index.v1+json\",\n  \"schemaVersion\": 2\n}"@
}

/// The text of an index that lists the manifest with the given media type,
/// digest and size.
pub fn index_document(media_type: &str, digest: &str, size: usize) -> (r: String)
    ensures
        r@ == index_text(media_type@, digest@, size as nat),
        r@ == "{\n  \"manifests\": [\n    {\n      \"digest\": "@ + json_string(digest@)
            + ",\n      \"mediaType\": "@ + json_string(media_type@) + ",\n      \"size\": "@
            + number_text(size as nat, 10)
            + "\n    }\n  ],\n  \"mediaType\": \"application/vnd.oci.image.index.v1+json\",\n  \"schemaVersion\": 2\n}"@,
{
    let mut r = "{\n  \"manifests\": [\n    {\n      \"digest\": ".to_owned();
    r.append(quote_json(digest).as_str());
    r.append(",\n      \"mediaType\": ");
    r.append(quote_json(media_type).as_str());
    r.append(",\n      \"size\": ");
    r.append(number(size as u64, 10).as_str());
    r.append(
        "\n    }\n  ],\n  \"mediaType\": \"application/vnd.oci.image.index.v1+json\",\n  \"schemaVersion\": 2\n}",
    );
    r
}

// ── Arguments ───────────────────────────────────────────────────────────────

/// Parse a platform such as `linux/amd64`: what is before and behind the first
/// slash. `None` where there is no slash.
pub fn parse_platform(s: &str) -> (r: Option<(String, String)>)
    ensures
        match r {
            Some((os, arch)) => first_at(s@, '/') < s@.len() && os@ == s@.take(first_at(s@, '/'))
                && arch@ == s@.skip(first_at(s@, '/') + 1),
            None => first_at(s@, '/') == s@.len(),
        },
        match r {
            Some((os, arch)) => s@ == os@.push('/') + arch@ && !os@.contains('/'),
            None => !s@.contains('/'),
        },
{
    let v = chars_of(s);
    let slash: usize = find_first(&v, '/');
    if slash >= v.len() {
        assert(!s@.contains('/')) by {
            assert forall|j: int| 0 <= j < s@.len() implies s@[j] != '/' by {}
        }
        return None;
    }
    let os = text_of(&v, 0, slash);
    let arch = text_of(&v, slash + 1, v.len());
    assert(os@ =~= s@.take(slash as int));
    assert(arch@ =~= s@.skip(slash + 1));
    assert(s@ =~= os@.push('/') + arch@);
    assert(!os@.contains('/')) by {
        assert forall|j: int| 0 <= j < os@.len() implies os@[j] != '/' by {
            assert(os@[j] == s@[j]);
        }
    }
    Some((os, arch))
}

/// A line without the line ends behind it.
pub open spec fn without_line_end(s: Seq<char>) -> Seq<char>
    decreases s.len(),
{
    if s.len() > 0 && (s.last() == '\n' || s.last() == '\r') {
        without_line_end(s.drop_last())
    } else {
        s
    }
}

/// A password that was read as a line: without the line ends behind it.
pub fn password_line(line: &str) -> (r: String)
    ensures
        r@ == without_line_end(line@),
        r@.is_prefix_of(line@),
        r@.len() == 0 || (r@.last() != '\n' && r@.last() != '\r'),
        forall|j: int|
            r@.len() <= j < line@.len() ==> #[trigger] line@[j] == '\n' || line@[j] == '\r',
{
    let v = chars_of(line);
    let mut n: usize = v.len();
    assert(v@.take(n as int) =~= line@);
    while n > 0 && (v[n - 1] == '\n' || v[n - 1] == '\r')
        invariant
            n <= v.len(),
            without_line_end(v@.take(n as int)) == without_line_end(line@),
            v@ == line@,
            forall|j: int| n <= j < line@.len() ==> #[trigger] line@[j] == '\n' || line@[j] == '\r',
        decreases n,
    {
        assert(v@.take(n as int).drop_last() =~= v@.take(n - 1));
        n = n - 1;
    }
    assert(v@.take(n as int) =~= v@.subrange(0, n as int));
    assert(line@.subrange(0, n as int) == v@.subrange(0, n as int));
    text_of(&v, 0, n)
}

// ── Laws ────────────────────────────────────────────────────────────────────

/// Tokens of different registries or scopes are kept apart. A registry with a
/// line feed is left out, since a line feed separates it from the scope.
pub proof fn law_tokens_are_kept_apart(
    registry: Seq<char>,
    scope: Seq<char>,
    registry2: Seq<char>,
    scope2: Seq<char>,
)
    requires
        !registry.contains('\n'),
        !registry2.contains('\n'),
        token_key(registry, scope) == token_key(registry2, scope2),
    ensures
        registry == registry2,
        scope == scope2,
{
    let k = token_key(registry, scope);
    let n = registry.len() as int;
    let m = registry2.len() as int;
    assert(k[n] == '\n');
    assert(k[m] == '\n');
    if n < m {
        assert(registry2[n] == k[n]);
    }
    if m < n {
        assert(registry[m] == k[m]);
    }
    assert(registry =~= k.take(n));
    assert(registry2 =~= k.take(m));
    assert(scope =~= k.skip(n + 1));
    assert(scope2 =~= k.skip(m + 1));
}

/// A downloaded blob that was kept is found again: a file whose hash is that of
/// the digest is not downloaded, and any other file under a SHA-256 digest is
/// replaced.
pub proof fn law_local_blob_is_reused_iff_it_matches(
    digest: Seq<char>,
    actual: Seq<char>,
)
    requires
        digest_hex(digest) is Some,
    ensures
        local_blob_of(true, digest, actual) == LocalBlob::Cached <==> digest_hex(digest) == Some(
            actual,
        ),
        local_blob_of(true, digest, actual) != LocalBlob::Download,
{
}

/// A token that was remembered for a registry and scope is the one that is used
/// there, whatever else is known.
pub proof fn law_remembered_token_is_used(
    cache: Map<Seq<char>, Seq<char>>,
    store: Map<Seq<char>, CredentialsView>,
    c: ChallengeView,
    registry: Seq<char>,
    scope: Seq<char>,
    token: Seq<char>,
    step: TokenStep,
)
    requires
        token_step_is(
            cache.insert(token_key(registry, scope), token),
            store,
            c,
            registry,
            scope,
            step,
        ),
    ensures
        step matches TokenStep::Known(t) && t@ == token,
{
}

/// Remembering a token changes nothing for any other registry or scope. A
/// registry with a line feed is left out, since a line feed separates it from
/// the scope.
pub proof fn law_remembered_token_is_used_nowhere_else(
    cache: Map<Seq<char>, Seq<char>>,
    store: Map<Seq<char>, CredentialsView>,
    c: ChallengeView,
    registry: Seq<char>,
    scope: Seq<char>,
    registry2: Seq<char>,
    scope2: Seq<char>,
    token: Seq<char>,
    step: TokenStep,
)
    requires
        !registry.contains('\n'),
        !registry2.contains('\n'),
        registry != registry2 || scope != scope2,
    ensures
        token_step_is(
            cache.insert(token_key(registry, scope), token),
            store,
            c,
            registry2,
            scope2,
            step,
        ) == token_step_is(cache, store, c, registry2, scope2, step),
{
    if token_key(registry, scope) == token_key(registry2, scope2) {
        law_tokens_are_kept_apart(registry, scope, registry2, scope2);
    }
}

/// A token that is not known is requested, from the challenge's realm and with
/// the credentials that are stored for the registry.
pub proof fn law_unknown_token_is_requested(
    store: Map<Seq<char>, CredentialsView>,
    c: ChallengeView,
    registry: Seq<char>,
    scope: Seq<char>,
    step: TokenStep,
)
    requires
        token_step_is(Map::empty(), store, c, registry, scope, step),
    ensures
        step is Request,
        c.realm.is_prefix_of(step->url@),
        ("scope="@ + scope).is_suffix_of(step->url@),
        store.contains_key(registry) ==> (step->credentials matches Some(have) && have@
            == store[registry]),
{
    law_token_url_spans_realm_and_scope(c, scope);
}

/// The media type of a content type header is what is before the parameters,
/// without white space around it.
pub proof fn law_media_type_is_before_the_parameters(
    lead: Seq<char>,
    media_type: Seq<char>,
    trail: Seq<char>,
    rest: Seq<char>,
)
    requires
        forall|i: int| 0 <= i < lead.len() ==> is_white_space(#[trigger] lead[i]),
        forall|i: int| 0 <= i < trail.len() ==> is_white_space(#[trigger] trail[i]),
        media_type.len() > 0,
        !is_white_space(media_type[0]),
        !is_white_space(media_type.last()),
        !(lead + media_type + trail).contains(';'),
    ensures
        media_type_of(lead + media_type + trail) == media_type,
        media_type_of((lead + media_type + trail).push(';') + rest) == media_type,
{
    law_first_part_is_before_the_separator(lead + media_type + trail, ';', rest);
    law_white_space_around_goes(lead, media_type, trail);
    let part = seq![lead + media_type + trail];
    assert((part + split_on(rest, ';'))[0] == part[0]);
}

/// The manifest and blobs of an image that is written with its registry,
/// repository and tag are requested from that registry and repository.
pub proof fn law_written_image_is_requested(
    host: Seq<char>,
    repo: Seq<char>,
    tag: Seq<char>,
    digest: Seq<char>,
)
    requires
        !host.contains('/') && !host.contains('@'),
        host.contains('.') || host.contains(':') || host == "localhost"@,
        host != "docker.io"@,
        !repo.contains('@') && !repo.contains(':'),
        !tag.contains('@') && !tag.contains(':') && !tag.contains('/'),
    ensures
        ({
            let image = parsed((host.push('/') + repo).push(':') + tag)->Ok_0;
            &&& manifest_url_of(None, image) == "https://"@ + host + "/v2/"@ + repo
                + "/manifests/"@ + tag
            &&& blob_url_of(None, image, digest) == "https://"@ + host + "/v2/"@ + repo + "/blobs/"@
                + digest
        }),
{
    let name = host.push('/') + repo;
    law_registry_is_the_first_component(host, repo);
    assert(!name.contains('@')) by {
        if name.contains('@') {
            let j = choose|j: int| 0 <= j < name.len() && name[j] == '@';
            if j < host.len() {
                assert(host[j] == '@');
            } else if j > host.len() {
                assert(repo[j - host.len() - 1] == '@');
            }
        }
    }
    assert(only_ports(name)) by {
        assert forall|j: int| 0 <= j < name.len() && #[trigger] name[j] == ':' implies exists|k: int|
            j < k < name.len() && #[trigger] name[k] == '/' by {
            if j > host.len() {
                assert(repo[j - host.len() - 1] == ':');
            }
            assert(name[host.len() as int] == '/');
        }
    }
    law_tag_is_behind_the_colon(name, tag);
}

/// A mirror stands for Docker Hub and for no other registry.
pub proof fn law_mirror_stands_for_docker_hub(mirror: Seq<char>, image: ImageView)
    ensures
        image.registry == "registry-1.docker.io"@ ==> manifest_url_of(Some(mirror), image) == mirror
            + "/v2/"@ + image.repository + "/manifests/"@ + image.reference.text(),
        image.registry != "registry-1.docker.io"@ ==> manifest_url_of(Some(mirror), image)
            == manifest_url_of(None, image),
{
}

/// As many downloads run at once as are wanted, but no more than there are
/// layers, and one where none are wanted.
pub proof fn law_workers_are_as_many_as_wanted(concurrency: nat, total: nat)
    requires
        total > 0,
    ensures
        0 < concurrency <= total ==> workers(concurrency, total) == concurrency,
        concurrency > total ==> workers(concurrency, total) == total,
        workers(0, total) == 1,
{
}

/// The label of a layer counts from one, and ends with the start of its digest.
pub proof fn law_label_counts_from_one(i: nat, total: nat, digest: Seq<char>, rest: Seq<char>)
    requires
        digest.len() == 19,
    ensures
        position_label(i, total, 0, digest + rest) == "["@ + number_text(i + 1, 10) + "/"@
            + number_text(total, 10) + "] "@ + digest,
        value_of(number_text(i + 1, 10), 10) == i + 1,
        value_of(number_text(total, 10), 10) == total,
        i + 1 < 10 && total < 10 ==> position_label(i, total, 2, digest + rest) == "["@
            + number_text(i + 1, 10).insert(0, ' ') + "/"@ + number_text(total, 10).insert(0, ' ')
            + "] "@ + digest,
{
    assert(abbreviated(digest + rest) =~= digest) by {
        if rest.len() == 0 {
            assert(digest + rest =~= digest);
        }
    }
    law_number_has_its_value(i + 1, 10);
    law_number_has_its_value(total, 10);
    if i + 1 < 10 && total < 10 {
        let (a, b) = (number_text(i + 1, 10), number_text(total, 10));
        assert(left_padded(a, ' ', 2) =~= a.insert(0, ' '));
        assert(left_padded(b, ' ', 2) =~= b.insert(0, ' '));
    }
}

/// The first descriptor with both names of a platform is the one for it.
pub proof fn law_first_of_a_platform_is_selected(
    descs: Seq<RawDescriptor>,
    os: Seq<char>,
    arch: Seq<char>,
    n: int,
)
    requires
        0 <= n <= descs.len(),
        forall|j: int|
            0 <= j < n ==> !((#[trigger] descs[j]).platform matches Some(p) && p.os@ == os
                && p.architecture@ == arch),
        n < descs.len() ==> (descs[n].platform matches Some(p) && p.os@ == os && p.architecture@
            == arch),
    ensures
        platform_at(descs, os, arch) == n,
    decreases n,
{
    if n > 0 {
        assert(!is_for(descs[0], os, arch));
        let rest = descs.drop_first();
        assert forall|j: int| 0 <= j < n - 1 implies !((#[trigger] rest[j]).platform matches Some(p)
            && p.os@ == os && p.architecture@ == arch) by {
            assert(rest[j] == descs[j + 1]);
        }
        if n < descs.len() {
            assert(rest[n - 1] == descs[n]);
        }
        law_first_of_a_platform_is_selected(rest, os, arch, n - 1);
    }
}

/// A line loses all line ends behind it, and nothing else.
pub proof fn law_line_ends_go(line: Seq<char>, ends: Seq<char>)
    requires
        line.len() == 0 || (line.last() != '\n' && line.last() != '\r'),
        forall|i: int| 0 <= i < ends.len() ==> #[trigger] ends[i] == '\n' || ends[i] == '\r',
    ensures
        without_line_end(line + ends) == line,
    decreases ends.len(),
{
    let all = line + ends;
    if ends.len() > 0 {
        assert(all.last() == ends[ends.len() - 1]);
        assert(all.drop_last() =~= line + ends.drop_last());
        law_line_ends_go(line, ends.drop_last());
    } else {
        assert(all =~= line);
    }
}

} // verus!
