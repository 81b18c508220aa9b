//! References, challenges, credentials and the decisions of the client.

use ocirender::digest::{check_digest, content_digest, hex_encode, sha256_hex, DigestCheck};
use ocirender::registry::auth::BearerChallenge;
use ocirender::registry::client::{
    abbrev, after_manifest, content_type, index_document, judge_local_blob, judge_response,
    layer_label, layer_metas, layout_document, manifest_accept, parse_platform,
    password_line, select_platform, snippet, token_of, worker_count, Endpoints, LocalBlob,
    ManifestStep, RawDescriptor, RawPlatform, ResponseAction, TokenCache, TokenStep,
};
use ocirender::registry::credentials::{
    config_value, credentials_from_bytes, docker_config_path, CredentialError, CredentialStore,
};
use ocirender::registry::fetch::{
    fetch_begun, fetch_listed, fetch_resolved, pull_listed, FetchStep, FileWrite,
};
use ocirender::registry::reference::{ImageReference, Ref, ReferenceError};

// ── References ──────────────────────────────────────────────────────────────

fn parse(s: &str) -> (String, String, String) {
    let r = ImageReference::parse(s).unwrap();
    (r.registry, r.repository, r.reference.to_string())
}

#[test]
fn docker_short_names() {
    assert_eq!(
        parse("nginx"),
        (
            "registry-1.docker.io".into(),
            "library/nginx".into(),
            "latest".into()
        )
    );
    assert_eq!(
        parse("nginx:1.25"),
        (
            "registry-1.docker.io".into(),
            "library/nginx".into(),
            "1.25".into()
        )
    );
}

#[test]
fn docker_namespaced() {
    assert_eq!(
        parse("user/app:v2"),
        (
            "registry-1.docker.io".into(),
            "user/app".into(),
            "v2".into()
        )
    );
}

#[test]
fn external_registry() {
    assert_eq!(
        parse("ghcr.io/myorg/myimage:main"),
        ("ghcr.io".into(), "myorg/myimage".into(), "main".into())
    );
}

#[test]
fn localhost_with_port() {
    assert_eq!(
        parse("localhost:5000/myimage:dev"),
        ("localhost:5000".into(), "myimage".into(), "dev".into())
    );
}

#[test]
fn registry_with_port() {
    assert_eq!(
        parse("registry.example.com:5000/foo/bar:tag"),
        (
            "registry.example.com:5000".into(),
            "foo/bar".into(),
            "tag".into()
        )
    );
}

#[test]
fn digest_reference() {
    let r = ImageReference::parse("ubuntu@sha256:abcdef").unwrap();
    assert_eq!(r.repository, "library/ubuntu");
    assert!(matches!(r.reference, Ref::Digest(_)));
}

#[test]
fn port_without_tag_is_no_tag() {
    assert_eq!(
        parse("localhost:5000/myimage"),
        ("localhost:5000".into(), "myimage".into(), "latest".into())
    );
    assert_eq!(
        parse("localhost/myimage"),
        ("localhost".into(), "myimage".into(), "latest".into())
    );
    assert_eq!(
        parse("docker.io/nginx"),
        ("registry-1.docker.io".into(), "library/nginx".into(), "latest".into())
    );
    assert_eq!(
        parse("docker.io/library/ubuntu:22.04"),
        ("registry-1.docker.io".into(), "library/ubuntu".into(), "22.04".into())
    );
}

#[test]
fn empty_names_are_refused() {
    for s in ["", ":tag", "@sha256:abc"] {
        assert!(matches!(ImageReference::parse(s), Err(ReferenceError::EmptyName)));
    }
}

#[test]
fn qualified_reference_is_stable() {
    for s in ["nginx", "user/app:v2", "ghcr.io/a/b:main", "localhost:5000/x", "a.b/c"] {
        let once = ImageReference::parse(s).unwrap().to_string();
        assert_eq!(ImageReference::parse(&once).unwrap().to_string(), once);
    }
    assert_eq!(
        ImageReference::parse("nginx").unwrap().to_string(),
        "registry-1.docker.io/library/nginx:latest"
    );
}

#[test]
fn reference_parts() {
    let r = ImageReference::parse("ghcr.io/myorg/myimage:main").unwrap();
    assert_eq!(r.reference_str(), "main");
    assert_eq!(r.pull_scope(), "repository:myorg/myimage:pull");
    let d = r.with_digest("sha256:00");
    assert_eq!(d.reference_str(), "sha256:00");
    assert_eq!(d.registry, "ghcr.io");
    assert_eq!(d.repository, "myorg/myimage");
    assert!(matches!(d.reference, Ref::Digest(_)));
}

// ── Challenges ──────────────────────────────────────────────────────────────

#[test]
fn docker_hub_challenge() {
    let header = r#"Bearer realm="https://auth.docker.io/token",service="registry.docker.io",scope="repository:library/nginx:pull""#;
    let c = BearerChallenge::parse(header).unwrap();
    assert_eq!(c.realm, "https://auth.docker.io/token");
    assert_eq!(c.service.as_deref(), Some("registry.docker.io"));
    let url = c.token_url("repository:library/nginx:pull");
    assert!(url.contains("service=registry.docker.io"));
    assert!(url.contains("scope=repository:library/nginx:pull"));
}

#[test]
fn challenge_without_service() {
    let header = r#"Bearer realm="https://ghcr.io/token""#;
    let c = BearerChallenge::parse(header).unwrap();
    assert!(c.service.is_none());
    let url = c.token_url("repository:myorg/myimage:pull");
    assert!(!url.contains("service="));
    assert!(url.contains("scope=repository:myorg/myimage:pull"));
}

#[test]
fn non_bearer_scheme() {
    assert!(BearerChallenge::parse("Basic realm=\"registry\"").is_none());
}

#[test]
fn challenge_details() {
    assert!(BearerChallenge::parse("Bearer service=\"x\"").is_none());
    assert!(BearerChallenge::parse("").is_none());
    let c = BearerChallenge::parse("Bearer  REALM = \"https://a/t?x=1\" , junk, SerVice=s\u{a0}")
        .unwrap();
    assert_eq!(c.realm, "https://a/t?x=1");
    assert_eq!(c.service.as_deref(), Some("s"));
    assert_eq!(c.token_url("z"), "https://a/t?x=1&service=s&scope=z");
    let last = BearerChallenge::parse("Bearer realm=a,realm=b").unwrap();
    assert_eq!(last.realm, "b");
    assert_eq!(last.token_url("s"), "b?scope=s");
    let kelvin = BearerChallenge::parse("Bearer \u{212a}=1,realm=a,k=2").unwrap();
    assert_eq!(kelvin.realm, "a");
}

// ── Credentials ─────────────────────────────────────────────────────────────

#[test]
fn credentials_are_loaded() {
    // "user:pass" and "a:b:c" in base64, and entries that are skipped.
    let config = r#"{
        "auths": {
            "ghcr.io": {"auth": "dXNlcjpwYXNz"},
            "example.com": {"auth": "YTpiOmM=", "email": "x"},
            "https://index.docker.io/v1/": {"auth": "aHViOnB3"},
            "no-auth": {},
            "not-base64": {"auth": "***"},
            "no-colon": {"auth": "dXNlcg=="},
            "not-utf8": {"auth": "/zr/"},
            "empty": {"auth": ""},
            "number": {"auth": 7}
        },
        "HttpHeaders": {"User-Agent": "x"}
    }"#;
    let store = CredentialStore::load(Some(config)).unwrap();
    let c = store.lookup("ghcr.io").unwrap();
    assert_eq!((c.username.as_str(), c.password.as_str()), ("user", "pass"));
    let c = store.lookup("example.com").unwrap();
    assert_eq!((c.username.as_str(), c.password.as_str()), ("a", "b:c"));
    let c = store.lookup("registry-1.docker.io").unwrap();
    assert_eq!((c.username.as_str(), c.password.as_str()), ("hub", "pw"));
    for skipped in ["no-auth", "not-base64", "no-colon", "not-utf8", "empty", "number", "other"] {
        assert!(store.lookup(skipped).is_none(), "{skipped}");
    }
}

#[test]
fn missing_or_odd_configuration() {
    assert!(CredentialStore::load(None).unwrap().lookup("ghcr.io").is_none());
    for text in ["{}", "[]", "null", r#"{"auths": 1}"#] {
        assert!(CredentialStore::load(Some(text)).unwrap().lookup("ghcr.io").is_none());
    }
    assert!(matches!(CredentialStore::load(Some("{")), Err(CredentialError::NotJson)));
    assert!(credentials_from_bytes(b"a:b".to_vec()).is_some());
    assert!(credentials_from_bytes(b"ab".to_vec()).is_none());
    assert!(credentials_from_bytes(vec![0xff, b':']).is_none());
}

#[test]
fn saved_credentials_are_loaded() {
    let first = CredentialStore::save(None, "ghcr.io", "me", "s3:cret").unwrap();
    let store = CredentialStore::load(Some(&first)).unwrap();
    let c = store.lookup("ghcr.io").unwrap();
    assert_eq!((c.username.as_str(), c.password.as_str()), ("me", "s3:cret"));
    let second = CredentialStore::save(Some(&first), "example.com", "you", "").unwrap();
    let third = CredentialStore::save(Some(&second), "ghcr.io", "me", "new").unwrap();
    let store = CredentialStore::load(Some(&third)).unwrap();
    assert_eq!(store.lookup("example.com").unwrap().password, "");
    assert_eq!(store.lookup("ghcr.io").unwrap().password, "new");
    assert!(third.contains("Z2hjci5pbw") == false && third.contains("bWU6bmV3"));
}

#[test]
fn saving_keeps_the_rest() {
    let config = r#"{"HttpHeaders":{"User-Agent":"x"},"n":1.5,"auths":{"a":{"auth":"dTpw","email":"e"}}}"#;
    let saved = CredentialStore::save(Some(config), "b", "u", "p").unwrap();
    let value: serde_json::Value = serde_json::from_str(&saved).unwrap();
    assert_eq!(value["HttpHeaders"]["User-Agent"], "x");
    assert_eq!(value["n"], 1.5);
    assert_eq!(value["auths"]["a"]["email"], "e");
    assert_eq!(value["auths"]["b"]["auth"], "dTpw");
    let config = r#"{"credsStore":"desktop","credHelpers":{"gcr.io":"gcloud"},"list":[1,null,{"k":true}],
        "float":1.2345678901234567e-7,"big":18446744073709551615,"auths":{"a":[1],"b":{"x":1}}}"#;
    let saved = CredentialStore::save(Some(config), "b", "u", "p").unwrap();
    let before: serde_json::Value = serde_json::from_str(config).unwrap();
    let after: serde_json::Value = serde_json::from_str(&saved).unwrap();
    for key in ["credsStore", "credHelpers", "list", "float", "big"] {
        assert_eq!(before[key], after[key], "{key}");
        let path = vec![key.to_string()];
        assert_eq!(config_value(&saved, &path).unwrap(), before[key].to_string());
    }
    let nested = |keys: &[&str]| keys.iter().map(|k| k.to_string()).collect::<Vec<String>>();
    assert_eq!(config_value(&saved, &nested(&["auths", "a"])).unwrap(), "[1]");
    assert_eq!(config_value(&saved, &nested(&["credHelpers", "gcr.io"])).unwrap(), "\"gcloud\"");
    assert_eq!(config_value(&saved, &nested(&["auths", "b", "auth"])).unwrap(), "\"dTpw\"");
    assert_eq!(config_value(&saved, &nested(&["auths", "b", "x"])), None);
    assert_eq!(config_value(&saved, &nested(&["list", "0"])), None);
    assert_eq!(config_value("nope", &nested(&[])), None);
    assert_eq!(config_value("[ 1 ]", &nested(&[])).unwrap(), "[1]");
    assert_eq!(before["auths"]["a"], after["auths"]["a"]);
    let fresh = CredentialStore::save(Some(r#"{"auths":null}"#), "b", "u", "p").unwrap();
    assert_eq!(fresh, "{\n  \"auths\": {\n    \"b\": {\n      \"auth\": \"dTpw\"\n    }\n  }\n}");
}

#[test]
fn unusable_configuration_is_refused() {
    assert!(CredentialStore::save(Some("null"), "r", "u", "p").is_ok());
    for text in ["[]", "1", "true", "\"x\"", r#"{"auths": 1}"#, r#"{"auths": []}"#, r#"{"auths": "x"}"#] {
        assert!(matches!(
            CredentialStore::save(Some(text), "r", "u", "p"),
            Err(CredentialError::NotAnObject)
        ));
    }
    assert!(matches!(
        CredentialStore::save(Some("nope"), "r", "u", "p"),
        Err(CredentialError::NotJson)
    ));
}

#[test]
fn configuration_path() {
    assert_eq!(docker_config_path(Some("/etc/docker"), Some("/root"), None), "/etc/docker/config.json");
    assert_eq!(docker_config_path(None, Some("/root"), Some("/u")), "/root/.docker/config.json");
    assert_eq!(docker_config_path(None, None, Some("/u/")), "/u/.docker/config.json");
    assert_eq!(docker_config_path(None, None, None), "./.docker/config.json");
}

// ── Requests ────────────────────────────────────────────────────────────────

#[test]
fn urls() {
    let image = ImageReference::parse("nginx:1.25").unwrap();
    let plain = Endpoints::new(None);
    assert_eq!(
        plain.manifest_url(&image),
        "https://registry-1.docker.io/v2/library/nginx/manifests/1.25"
    );
    let mirrored = Endpoints::new(Some("http://mirror:5000//"));
    assert_eq!(mirrored.base_url("registry-1.docker.io"), "http://mirror:5000");
    assert_eq!(mirrored.base_url("ghcr.io"), "https://ghcr.io");
    assert_eq!(
        mirrored.blob_url(&image, "sha256:ab"),
        "http://mirror:5000/v2/library/nginx/blobs/sha256:ab"
    );
    assert!(manifest_accept().starts_with("application/vnd.oci.image.index.v1+json,"));
    assert_eq!(manifest_accept().split(',').count(), 5);
}

#[test]
fn responses() {
    let bearer = Some("Bearer realm=\"https://a/t\"");
    assert!(matches!(judge_response(200, None, true), ResponseAction::Accept));
    assert!(matches!(judge_response(299, None, false), ResponseAction::Accept));
    assert!(matches!(judge_response(404, bearer, true), ResponseAction::Fail));
    match judge_response(401, bearer, true) {
        ResponseAction::Authenticate(c) => assert_eq!(c.realm, "https://a/t"),
        _ => panic!("a challenge leads to a token"),
    }
    assert!(matches!(judge_response(401, bearer, false), ResponseAction::Fail));
    assert!(matches!(judge_response(401, None, true), ResponseAction::NoChallenge));
    assert!(matches!(judge_response(401, Some("Basic x"), true), ResponseAction::NoChallenge));
}

#[test]
fn tokens() {
    let c = BearerChallenge::parse("Bearer realm=\"https://a/t\"").unwrap();
    let store = CredentialStore::load(Some(r#"{"auths":{"r":{"auth":"dTpw"}}}"#)).unwrap();
    let mut cache = TokenCache::new();
    match cache.step(&store, &c, "r", "s") {
        TokenStep::Request { url, credentials } => {
            assert_eq!(url, "https://a/t?scope=s");
            assert_eq!(credentials.unwrap().username, "u");
        }
        TokenStep::Known(_) => panic!("no token is known yet"),
    }
    cache.insert("r", "s", "tok".to_string());
    assert!(matches!(cache.step(&store, &c, "r", "s"), TokenStep::Known(t) if t == "tok"));
    assert!(matches!(
        cache.step(&store, &c, "r2", "s"),
        TokenStep::Request { credentials: None, .. }
    ));
    assert_eq!(token_of(Some("a".into()), Some("b".into())).as_deref(), Some("a"));
    assert_eq!(token_of(None, Some("b".into())).as_deref(), Some("b"));
    assert_eq!(token_of(None, None), None);
}

fn descriptor(digest: &str, platform: Option<(&str, &str)>) -> RawDescriptor {
    RawDescriptor {
        media_type: format!("type of {digest}"),
        digest: digest.to_string(),
        size: 1,
        platform: platform
            .map(|(os, arch)| RawPlatform { os: os.into(), architecture: arch.into() }),
    }
}

#[test]
fn platforms() {
    let index = vec![
        descriptor("sha256:0", None),
        descriptor("sha256:1", Some(("linux", "arm64"))),
        descriptor("sha256:2", Some(("linux", "amd64"))),
        descriptor("sha256:3", Some(("linux", "amd64"))),
    ];
    assert_eq!(select_platform(&index, "linux", "amd64").unwrap().digest, "sha256:2");
    assert!(select_platform(&index, "windows", "amd64").is_none());
    let image = ImageReference::parse("nginx").unwrap();
    let list = "application/vnd.docker.distribution.manifest.list.v2+json";
    match after_manifest(&image, list, b"", &index, "linux", "arm64") {
        ManifestStep::Fetch(next) => assert_eq!(next.reference_str(), "sha256:1"),
        _ => panic!("an index leads to a manifest"),
    }
    assert!(matches!(
        after_manifest(&image, list, b"", &index, "plan9", "x"),
        ManifestStep::NoPlatform
    ));
    match after_manifest(&image, "application/json", b"abc", &index, "linux", "arm64") {
        ManifestStep::Resolved { digest } => assert_eq!(
            digest,
            "sha256:ba7816bf8f01cfea414140de5dae2223b00361a396177a9cb410ff61f20015ad"
        ),
        _ => panic!("anything else is the manifest"),
    }
}

#[test]
fn content_types() {
    assert_eq!(content_type(Some("a/b; charset=utf-8")), "a/b");
    assert_eq!(content_type(Some("  a/b ")), "a/b");
    assert_eq!(content_type(Some(";x")), "");
    assert_eq!(content_type(None), "");
    assert_eq!(content_type(Some("\u{2003}a/b\u{85}")), "a/b");
}

#[test]
fn downloads() {
    assert_eq!(worker_count(0, 5), 1);
    assert_eq!(worker_count(3, 5), 3);
    assert_eq!(worker_count(9, 5), 5);
    assert_eq!(worker_count(3, 0), 0);
    let metas = layer_metas(&vec![descriptor("a", None), descriptor("b", None)]).unwrap();
    assert_eq!(metas.len(), 2);
    assert_eq!((metas[1].index, metas[1].media_type.as_str()), (1, "type of b"));
    assert!(layer_metas(&vec![]).is_none());
    assert_eq!(ocirender::packer::ready_layer(&metas, 0).as_deref(), Some("type of a"));
    assert!(ocirender::packer::ready_layer(&metas, 2).is_none());
}

#[test]
fn digests() {
    assert_eq!(hex_encode(&[0x00, 0x0f, 0xa5, 0xff]), "000fa5ff");
    let empty = "e3b0c44298fc1c149afbf4c8996fb92427ae41e4649b934ca495991b7852b855";
    assert_eq!(sha256_hex(b""), empty);
    assert_eq!(content_digest(b""), format!("sha256:{empty}"));
    assert_eq!(check_digest(&content_digest(b"x"), &sha256_hex(b"x")), DigestCheck::Match);
    assert_eq!(check_digest(&content_digest(b"x"), &sha256_hex(b"y")), DigestCheck::Mismatch);
    assert_eq!(check_digest("sha512:00", "00"), DigestCheck::Unsupported);
    assert_eq!(judge_local_blob(false, "sha256:00", ""), LocalBlob::Download);
    assert_eq!(judge_local_blob(true, "sha256:00", "00"), LocalBlob::Cached);
    assert_eq!(judge_local_blob(true, "sha256:00", "01"), LocalBlob::Replace);
    assert_eq!(judge_local_blob(true, "md5:00", "00"), LocalBlob::Download);
}

#[test]
fn documents() {
    assert_eq!(layout_document(), r#"{"imageLayoutVersion":"1.0.0"}"#);
    let text = index_document("a/\"b\"", "sha256:00", 17);
    let value: serde_json::Value = serde_json::from_str(&text).unwrap();
    assert_eq!(value["schemaVersion"], 2);
    assert_eq!(value["mediaType"], "application/vnd.oci.image.index.v1+json");
    assert_eq!(value["manifests"][0]["mediaType"], "a/\"b\"");
    assert_eq!(value["manifests"][0]["digest"], "sha256:00");
    assert_eq!(value["manifests"][0]["size"], 17);
    assert_eq!(serde_json::to_string_pretty(&value).unwrap(), text);
}

fn written(files: &[FileWrite]) -> Vec<(&str, &[u8])> {
    files.iter().map(|f| (f.path.as_str(), f.content.as_slice())).collect()
}

#[test]
fn a_fetch_writes_the_manifest_and_an_index_to_it() {
    let layout = fetch_begun();
    assert_eq!(layout.path, "oci-layout");
    assert_eq!(layout.content, layout_document().as_bytes());
    let blob = format!("blobs/sha256/{}", sha256_hex(b"manifest"));
    let index = index_document("type", &content_digest(b"manifest"), 8);
    let want = vec![(blob.as_str(), &b"manifest"[..]), ("index.json", index.as_bytes())];
    assert!(matches!(fetch_resolved("type", b"manifest", true),
        FetchStep::Finish(files) if written(&files) == want));
    assert!(matches!(fetch_resolved("type", b"manifest", false),
        FetchStep::Parse(files) if written(&files) == want));
}

#[test]
fn a_fetch_downloads_the_config_and_then_the_newest_layer_first() {
    let layers: Vec<RawDescriptor> =
        ["sha256:aa", "sha256:bb", "md5:cc"].iter().map(|d| descriptor(d, None)).collect();
    let FetchStep::Download { config, layers: queue, workers } =
        fetch_listed(&Some(descriptor("sha256:ff", None)), &layers, 2)
    else {
        panic!("nothing to download")
    };
    let config = config.unwrap();
    assert_eq!(config.place.as_deref(), Some("blobs/sha256/ff"));
    assert_eq!((config.label.as_str(), config.size), ("[config] sha256:ff", 1));
    assert_eq!(workers, 2);
    let labels: Vec<&str> = queue.iter().map(|d| d.label.as_str()).collect();
    assert_eq!(labels, vec!["[ 3/ 3] md5:cc", "[ 2/ 3] sha256:bb", "[ 1/ 3] sha256:aa"]);
    assert_eq!(queue[0].place, None);
    assert_eq!(queue[1].place.as_deref(), Some("blobs/sha256/bb"));
    assert_eq!(queue[2].cached_label, "[1/3] sha256:aa");
    assert!(matches!(fetch_listed(&None, &vec![], 2), FetchStep::NoLayers));
    assert!(matches!(fetch_listed(&None, &layers, 0),
        FetchStep::Download { config: None, workers: 1, .. }));
    assert!(matches!(fetch_listed(&Some(descriptor("x:y", None)), &layers, 2),
        FetchStep::UnsupportedDigest(d) if d == "x:y"));
}

#[test]
fn a_pull_downloads_the_newest_layer_first() {
    let layers = vec![descriptor("sha256:aa", None), descriptor("sha256:bb", None)];
    let plan = pull_listed(&layers, 8).unwrap();
    assert_eq!(plan.workers, 2);
    assert_eq!(plan.metas[0].media_type, "type of sha256:aa");
    assert_eq!(plan.metas[1].index, 1);
    let order: Vec<(usize, &str, &str)> = plan
        .downloads
        .iter()
        .map(|d| (d.index, d.file_name.as_str(), d.label.as_str()))
        .collect();
    assert_eq!(
        order,
        vec![(1, "layer-1", "[ 2/ 2] sha256:bb"), (0, "layer-0", "[ 1/ 2] sha256:aa")]
    );
    assert!(pull_listed(&vec![], 8).is_none());
}

#[test]
fn labels_and_arguments() {
    let digest = "sha256:0123456789abcdef";
    assert_eq!(abbrev(digest), "sha256:0123456789ab");
    assert_eq!(abbrev("short"), "short");
    assert_eq!(layer_label(0, 12, 2, digest), "[ 1/12] sha256:0123456789ab");
    assert_eq!(snippet("abc"), "abc");
    assert_eq!(snippet(&"é".repeat(400)).chars().count(), 300);
    assert_eq!(parse_platform("linux/arm/v7"), Some(("linux".into(), "arm/v7".into())));
    assert_eq!(parse_platform("linux"), None);
    assert_eq!(password_line("secret\r\n\n"), "secret");
    assert_eq!(password_line("a\nb"), "a\nb");
}
