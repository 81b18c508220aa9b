//! Image layouts, media types, output sinks.

use ocirender::image::{
    detect_media_type, is_index_media_type, is_manifest_media_type, layer_location, layer_path,
    load_manifest, load_manifest_blob, load_nested_manifest, resolve_layers, strip_digest_prefix,
    BlobProbe, DockerManifest, ImageError, ManifestSource, OciDescriptor, OciIndex, OciManifest,
};
use ocirender::layers::{layer_compression, open_layer, Compression, LayerError};
use ocirender::sink::{mkfs_erofs_args, mksquashfs_args, sink_outcome, SinkOutcome};
use ocirender::ImageSpec;
use std::io::{Read, Write};
use std::path::PathBuf;

const OCI_INDEX: &str = "application/vnd.oci.image.index.v1+json";
const OCI_MANIFEST: &str = "application/vnd.oci.image.manifest.v1+json";
const DOCKER_LIST: &str = "application/vnd.docker.distribution.manifest.list.v2+json";
const DOCKER_MANIFEST: &str = "application/vnd.docker.distribution.manifest.v2+json";
const LAYER: &str = "application/vnd.oci.image.layer.v1.tar";

fn descriptor(digest: &str, media_type: &str) -> OciDescriptor {
    OciDescriptor { digest: digest.to_string(), media_type: media_type.to_string() }
}

fn index(manifests: Vec<OciDescriptor>) -> OciIndex {
    OciIndex { manifests }
}

fn probe(is_dir: bool, exists: bool, magic: Option<[u8; 4]>) -> BlobProbe {
    BlobProbe { is_dir, exists, magic }
}

#[test]
fn index_leads_to_its_first_manifest() {
    let found = load_manifest(
        Some(index(vec![descriptor("sha256:aa", OCI_MANIFEST), descriptor("sha256:bb", OCI_INDEX)])),
        None,
    );
    match found.unwrap() {
        ManifestSource::Blob(b) => {
            assert_eq!(b.path, "blobs/sha256/aa");
            assert!(!b.is_index);
        }
        ManifestSource::Manifest(_) => panic!("the manifest is in a blob"),
    }
}

#[test]
fn index_comes_before_the_docker_manifest() {
    let docker = DockerManifest { layers: vec![], layer_sources: vec![] };
    let found = load_manifest(Some(index(vec![descriptor("sha256:aa", "")])), Some(vec![docker]));
    assert!(matches!(found.unwrap(), ManifestSource::Blob(_)));
}

#[test]
fn docker_media_types_are_followed() {
    let found = load_manifest(Some(index(vec![descriptor("sha256:cc", DOCKER_LIST)])), None);
    match found.unwrap() {
        ManifestSource::Blob(b) => {
            assert_eq!(b.path, "blobs/sha256/cc");
            assert!(b.is_index);
        }
        ManifestSource::Manifest(_) => panic!("the manifest is in a blob"),
    }
    let nested = index(vec![
        descriptor("sha256:dd", OCI_INDEX),
        descriptor("sha256:bb", DOCKER_MANIFEST),
        descriptor("sha256:ee", OCI_MANIFEST),
    ]);
    let b = load_nested_manifest(&nested).unwrap();
    assert_eq!(b.path, "blobs/sha256/bb");
    assert!(!b.is_index);
    assert!(is_index_media_type(OCI_INDEX) && is_index_media_type(DOCKER_LIST));
    assert!(is_manifest_media_type(OCI_MANIFEST) && is_manifest_media_type(DOCKER_MANIFEST));
    assert!(!is_index_media_type(OCI_MANIFEST) && !is_manifest_media_type(OCI_INDEX));
}

#[test]
fn images_that_cannot_be_loaded() {
    assert!(matches!(load_manifest(None, None), Err(ImageError::NoManifestFile)));
    assert!(matches!(load_manifest(Some(index(vec![])), None), Err(ImageError::NoManifests)));
    assert!(matches!(load_manifest(None, Some(vec![])), Err(ImageError::EmptyDockerManifest)));
    assert!(matches!(
        load_nested_manifest(&index(vec![descriptor("sha256:aa", OCI_INDEX)])),
        Err(ImageError::NoInnerManifest)
    ));
    match load_manifest_blob(&descriptor("md5:aa", OCI_MANIFEST)) {
        Err(ImageError::UnsupportedDigest(d)) => assert_eq!(d, "md5:aa"),
        _ => panic!("only SHA-256 is supported"),
    }
    assert!(matches!(
        load_nested_manifest(&index(vec![descriptor("aa", OCI_MANIFEST)])),
        Err(ImageError::UnsupportedDigest(_))
    ));
}

#[test]
fn docker_layers_get_their_media_types() {
    let image = DockerManifest {
        layers: vec!["blobs/sha256/aa".into(), "blobs/sha256/bb".into(), "cc".into()],
        layer_sources: vec![
            ("sha256:aa".into(), "type a".into()),
            ("sha256:cc".into(), "type c".into()),
        ],
    };
    match load_manifest(None, Some(vec![image])).unwrap() {
        ManifestSource::Manifest(m) => {
            let got: Vec<(&str, &str)> =
                m.layers.iter().map(|l| (l.digest.as_str(), l.media_type.as_str())).collect();
            assert_eq!(
                got,
                vec![("blobs/sha256/aa", "type a"), ("blobs/sha256/bb", ""), ("cc", "type c")]
            );
        }
        ManifestSource::Blob(_) => panic!("the manifest is complete"),
    }
}

#[test]
fn layer_blob_in_a_directory_is_found_by_index() {
    let c = "c".repeat(64);
    let d = "d".repeat(64);
    let manifest = OciManifest {
        layers: vec![
            descriptor(&format!("sha256:{c}"), LAYER),
            descriptor(&format!("sha256:{d}"), LAYER),
        ],
    };
    let probes = vec![probe(true, true, None), probe(true, true, None)];
    let layers = resolve_layers(&manifest, &probes).unwrap();
    assert_eq!(layers.len(), 2);
    assert_eq!(layers[0].path, format!("blobs/sha256/{c}/0"));
    assert_eq!(layers[1].path, format!("blobs/sha256/{d}/1"));
    assert_eq!(layers[1].index, 1);
    assert_eq!(layers[1].media_type, LAYER);
}

#[test]
fn media_types_are_detected_where_they_are_missing() {
    let manifest = OciManifest { layers: vec![descriptor("some/path", "")] };
    let gzip = resolve_layers(&manifest, &vec![probe(false, true, Some([0x1f, 0x8b, 8, 0]))]);
    let gzip = gzip.unwrap();
    assert_eq!(gzip[0].path, "some/path");
    assert_eq!(gzip[0].media_type, "application/vnd.oci.image.layer.v1.tar+gzip");
    assert!(matches!(
        resolve_layers(&manifest, &vec![probe(false, true, None)]),
        Err(ImageError::UndetectedMediaType(p)) if p == "some/path"
    ));
    assert_eq!(
        detect_media_type(&[0x28, 0xb5, 0x2f, 0xfd]),
        "application/vnd.oci.image.layer.v1.tar+zstd"
    );
    assert_eq!(
        detect_media_type(&[0x42, 0x5a, 0x68, 0x39]),
        "application/vnd.oci.image.layer.v1.tar+bzip2"
    );
    assert_eq!(
        detect_media_type(&[0xfd, 0x37, 0x7a, 0x58]),
        "application/vnd.oci.image.layer.v1.tar+xz"
    );
    assert_eq!(detect_media_type(&[0, 0, 0, 0]), LAYER);
}

#[test]
fn detected_media_types_can_be_opened() {
    let marks: [([u8; 4], Compression); 5] = [
        ([0x1f, 0x8b, 8, 0], Compression::Gzip),
        ([0x28, 0xb5, 0x2f, 0xfd], Compression::Zstd),
        (*b"BZh9", Compression::Bzip2),
        ([0xfd, b'7', b'z', b'X'], Compression::Xz),
        (*b"etc/", Compression::Plain),
    ];
    for (magic, want) in marks {
        assert!(layer_compression(detect_media_type(&magic)) == Some(want));
    }
}

#[test]
fn blobs_that_cannot_be_resolved() {
    let manifest =
        OciManifest { layers: vec![descriptor("sha256:aa", LAYER), descriptor("md5:bb", LAYER)] };
    let there = || probe(false, true, None);
    assert!(matches!(
        resolve_layers(&manifest, &vec![probe(true, false, None), there()]),
        Err(ImageError::BlobNotFound(p)) if p == "blobs/sha256/aa/0"
    ));
    assert!(matches!(
        resolve_layers(&manifest, &vec![there(), there()]),
        Err(ImageError::UnsupportedDigest(d)) if d == "md5:bb"
    ));
    assert_eq!(layer_location(&descriptor("sha256:/x", "")).unwrap(), "/x");
    assert_eq!(layer_path("", 3, true), "3");
    assert_eq!(strip_digest_prefix("sha256:ab").unwrap(), "ab");
    assert!(strip_digest_prefix("ab").is_err());
}

// ── Compression ─────────────────────────────────────────────────────────────

#[test]
fn compressions() {
    let of = |suffix: &str| layer_compression(&format!("{LAYER}{suffix}"));
    assert_eq!(of("+gzip"), Some(Compression::Gzip));
    assert_eq!(of("+zstd"), Some(Compression::Zstd));
    assert_eq!(of("+bzip2"), Some(Compression::Bzip2));
    assert_eq!(of("+xz"), Some(Compression::Xz));
    assert_eq!(of("+lzma"), Some(Compression::Xz));
    assert_eq!(of(""), Some(Compression::Plain));
    assert_eq!(of("+br"), None);
    assert_eq!(
        layer_compression("application/vnd.docker.image.rootfs.diff.tar.gzip"),
        Some(Compression::Gzip)
    );
    assert_eq!(layer_compression(""), None);
}

#[test]
fn layers_are_decompressed() {
    let content = b"some content that is compressed and comes back".repeat(20);
    let mut gz = flate2::write::GzEncoder::new(Vec::new(), flate2::Compression::default());
    gz.write_all(&content).unwrap();
    let mut bz = bzip2::read::BzEncoder::new(&content[..], bzip2::Compression::default());
    let mut bzipped = Vec::new();
    bz.read_to_end(&mut bzipped).unwrap();
    let mut xz = xz2::write::XzEncoder::new(Vec::new(), 6);
    xz.write_all(&content).unwrap();
    let blobs = [
        ("+gzip", gz.finish().unwrap()),
        ("+zstd", zstd::stream::encode_all(&content[..], 0).unwrap()),
        ("+bzip2", bzipped),
        ("+xz", xz.finish().unwrap()),
        ("", content.clone()),
    ];
    for (suffix, blob) in &blobs {
        let opened = open_layer(blob, &format!("{LAYER}{suffix}")).unwrap();
        assert_eq!(opened.bytes, content, "{suffix}");
        assert!(opened.damage.is_none());
    }
    // A damaged blob can be opened, and yields what is before the damage.
    for (suffix, blob) in &blobs[..4] {
        let opened = open_layer(&blob[..blob.len() / 2], &format!("{LAYER}{suffix}")).unwrap();
        assert!(opened.damage.is_some());
        assert!(content.starts_with(&opened.bytes) && opened.bytes.len() < content.len());
    }
    let cut = &blobs[0].1[..blobs[0].1.len() - 1];
    let opened = open_layer(cut, &format!("{LAYER}+gzip")).unwrap();
    assert_eq!(opened.bytes, content);
    assert!(opened.damage.is_some());
    assert!(matches!(open_layer(b"", "text/plain"), Err(LayerError::UnsupportedMediaType)));
}

// ── Sinks ───────────────────────────────────────────────────────────────────

#[test]
fn programs_and_outcomes() {
    assert_eq!(
        mksquashfs_args("out.squashfs").join(" "),
        "- out.squashfs -tar -noappend -no-fragments -comp zstd -Xcompression-level 2 -quiet \
         -default-mode 0755 -default-uid 0 -default-gid 0"
    );
    assert_eq!(mkfs_erofs_args("out.erofs").join(" "), "-L root --tar=f out.erofs /dev/stdin");
    assert_eq!(sink_outcome(true, true), SinkOutcome::Done);
    assert_eq!(sink_outcome(true, false), SinkOutcome::ConsumerFailed);
    assert_eq!(sink_outcome(false, true), SinkOutcome::MergeFailed);
    assert_eq!(sink_outcome(false, false), SinkOutcome::MergeFailed);
    assert!(!SinkOutcome::Done.removes_file());
    assert!(SinkOutcome::MergeFailed.removes_file());
}

#[test]
fn image_paths() {
    let path = PathBuf::from("/x");
    assert_eq!(*ImageSpec::Tar { path: path.clone() }.path(), path);
    assert_eq!(*ImageSpec::Dir { path: path.clone() }.path(), path);
    assert_eq!(*ImageSpec::Squashfs { path: path.clone(), binpath: None }.path(), path);
    assert_eq!(*ImageSpec::Erofs { path: path.clone(), binpath: None }.path(), path);
}
