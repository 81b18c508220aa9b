//! OCI image layouts: which manifest an image directory holds, and where its
//! layers are.
//!
//! Two layouts are supported. In the OCI layout, `index.json` leads to a
//! manifest under `blobs/sha256/`, directly or by way of a nested index. In the
//! Docker save layout, a manifest file lists the layers by relative path.
//!
//! Whoever has access to the directory reads the files, as told by
//! [`load_manifest`], [`load_manifest_blob`] and [`load_nested_manifest`], and
//! probes the blobs for [`resolve_layers`]. All paths are relative to the image
//! directory.

use crate::layers::compression_of;
use crate::path::{join_path, joined};
use crate::text::{
    chars_of, contains_char, find_last, last_at, law_number_has_its_value, number, number_text,
    same_text, starts_with, text_of, value_of,
};
use vstd::prelude::*;
use vstd::string::*;

verus! {

// ── Data ────────────────────────────────────────────────────────────────────

/// A reference to a blob by its content, as it appears in an index or manifest.
#[derive(Debug)]
pub struct OciDescriptor {
    /// Content digest such as `sha256:abc123`, or a relative path in a Docker
    /// save layout.
    pub digest: String,
    /// Media type of the blob. Empty where it is not known.
    pub media_type: String,
}

/// The values of an [`OciDescriptor`].
#[verifier::ext_equal]
pub struct DescriptorView {
    pub digest: Seq<char>,
    pub media_type: Seq<char>,
}

impl View for OciDescriptor {
    type V = DescriptorView;

    open spec fn view(&self) -> DescriptorView {
        DescriptorView { digest: self.digest@, media_type: self.media_type@ }
    }
}

/// The values of descriptors.
pub open spec fn descriptor_views(v: Seq<OciDescriptor>) -> Seq<DescriptorView> {
    Seq::new(v.len(), |i: int| v[i]@)
}

/// An image index.
///
/// It may point at a manifest, or at a nested index for several platforms.
#[derive(Debug)]
pub struct OciIndex {
    pub manifests: Vec<OciDescriptor>,
}

/// An image manifest.
#[derive(Debug)]
pub struct OciManifest {
    /// The layers, oldest first.
    pub layers: Vec<OciDescriptor>,
}

/// An image of a Docker save layout.
#[derive(Debug)]
pub struct DockerManifest {
    /// Relative paths of the layers, oldest first.
    pub layers: Vec<String>,
    /// Digests with the media types of layers, where the layout has them.
    pub layer_sources: Vec<(String, String)>,
}

/// A layer blob that has been found.
#[derive(Debug)]
pub struct LayerBlob {
    /// The path of the blob.
    pub path: String,
    /// The media type, which selects the decompressor.
    pub media_type: String,
    /// The position in the manifest. Layer 0 is the oldest.
    pub index: usize,
}

/// The values of a [`LayerBlob`].
#[verifier::ext_equal]
pub struct BlobView {
    pub path: Seq<char>,
    pub media_type: Seq<char>,
    pub index: nat,
}

impl View for LayerBlob {
    type V = BlobView;

    open spec fn view(&self) -> BlobView {
        BlobView { path: self.path@, media_type: self.media_type@, index: self.index as nat }
    }
}

/// Why an image cannot be loaded.
#[derive(Debug)]
pub enum ImageError {
    /// The index lists no manifest.
    NoManifests,
    /// The Docker manifest lists no image.
    EmptyDockerManifest,
    /// There is neither an index nor a Docker manifest.
    NoManifestFile,
    /// The nested index lists no manifest of a single image.
    NoInnerManifest,
    /// The digest is not a SHA-256 digest.
    UnsupportedDigest(String),
    /// There is no blob at the path.
    BlobNotFound(String),
    /// The first bytes of the blob at the path cannot be had.
    UndetectedMediaType(String),
}

/// The values of an [`ImageError`].
pub enum ImageFault {
    NoManifests,
    EmptyDockerManifest,
    NoManifestFile,
    NoInnerManifest,
    UnsupportedDigest(Seq<char>),
    BlobNotFound(Seq<char>),
    UndetectedMediaType(Seq<char>),
}

impl View for ImageError {
    type V = ImageFault;

    open spec fn view(&self) -> ImageFault {
        match self {
            ImageError::NoManifests => ImageFault::NoManifests,
            ImageError::EmptyDockerManifest => ImageFault::EmptyDockerManifest,
            ImageError::NoManifestFile => ImageFault::NoManifestFile,
            ImageError::NoInnerManifest => ImageFault::NoInnerManifest,
            ImageError::UnsupportedDigest(d) => ImageFault::UnsupportedDigest(d@),
            ImageError::BlobNotFound(p) => ImageFault::BlobNotFound(p@),
            ImageError::UndetectedMediaType(p) => ImageFault::UndetectedMediaType(p@),
        }
    }
}

// ── Media types ─────────────────────────────────────────────────────────────

/// Whether a media type is that of an index.
pub open spec fn is_index_type(media_type: Seq<char>) -> bool {
    media_type == "application/vnd.oci.image.index.v1+json"@ || media_type
        == "application/vnd.docker.distribution.manifest.list.v2+json"@
}

/// Whether a media type is that of a manifest of a single image.
pub open spec fn is_manifest_type(media_type: Seq<char>) -> bool {
    media_type == "application/vnd.oci.image.manifest.v1+json"@ || media_type
        == "application/vnd.docker.distribution.manifest.v2+json"@
}

/// Whether a media type is that of an index: the OCI image index, or the Docker
/// manifest list.
pub fn is_index_media_type(media_type: &str) -> (r: bool)
    ensures
        r == is_index_type(media_type@),
        r <==> media_type@ == "application/vnd.oci.image.index.v1+json"@ || media_type@
            == "application/vnd.docker.distribution.manifest.list.v2+json"@,
{
    same_text(media_type, "application/vnd.oci.image.index.v1+json") || same_text(
        media_type,
        "application/vnd.docker.distribution.manifest.list.v2+json",
    )
}

/// Whether a media type is that of a manifest of a single image, OCI or Docker.
pub fn is_manifest_media_type(media_type: &str) -> (r: bool)
    ensures
        r == is_manifest_type(media_type@),
        r <==> media_type@ == "application/vnd.oci.image.manifest.v1+json"@ || media_type@
            == "application/vnd.docker.distribution.manifest.v2+json"@,
{
    same_text(media_type, "application/vnd.oci.image.manifest.v1+json") || same_text(
        media_type,
        "application/vnd.docker.distribution.manifest.v2+json",
    )
}

/// The media type that the first bytes of a layer blob tell.
pub open spec fn detected_type(magic: Seq<u8>) -> Seq<char> {
    if magic[0] == 0x1f && magic[1] == 0x8b {
        "application/vnd.oci.image.layer.v1.tar+gzip"@
    } else if magic == seq![0x28u8, 0xb5u8, 0x2fu8, 0xfdu8] {
        "application/vnd.oci.image.layer.v1.tar+zstd"@
    } else if magic[0] == 0x42 && magic[1] == 0x5a && magic[2] == 0x68 {
        "application/vnd.oci.image.layer.v1.tar+bzip2"@
    } else if magic == seq![0xfdu8, 0x37u8, 0x7au8, 0x58u8] {
        "application/vnd.oci.image.layer.v1.tar+xz"@
    } else {
        "application/vnd.oci.image.layer.v1.tar"@
    }
}

/// The media type that the first four bytes of a layer blob tell. Without a
/// known mark the blob is taken to be a plain tar archive.
pub fn detect_media_type(magic: &[u8; 4]) -> (r: &'static str)
    ensures
        r@ == detected_type(magic@),
        r@ == if magic@.take(2) == seq![0x1fu8, 0x8bu8] {
            "application/vnd.oci.image.layer.v1.tar+gzip"@
        } else if magic@ == seq![0x28u8, 0xb5u8, 0x2fu8, 0xfdu8] {
            "application/vnd.oci.image.layer.v1.tar+zstd"@
        } else if magic@.take(3) == seq![0x42u8, 0x5au8, 0x68u8] {
            "application/vnd.oci.image.layer.v1.tar+bzip2"@
        } else if magic@ == seq![0xfdu8, 0x37u8, 0x7au8, 0x58u8] {
            "application/vnd.oci.image.layer.v1.tar+xz"@
        } else {
            "application/vnd.oci.image.layer.v1.tar"@
        },
{
    proof {
        let zstd = seq![0x28u8, 0xb5u8, 0x2fu8, 0xfdu8];
        let xz = seq![0xfdu8, 0x37u8, 0x7au8, 0x58u8];
        if magic@[0] == 0x28 && magic@[1] == 0xb5 && magic@[2] == 0x2f && magic@[3] == 0xfd {
            assert(magic@ =~= zstd);
        }
        if magic@[0] == 0xfd && magic@[1] == 0x37 && magic@[2] == 0x7a && magic@[3] == 0x58 {
            assert(magic@ =~= xz);
        }
        let gzip = seq![0x1fu8, 0x8bu8];
        let bzip2 = seq![0x42u8, 0x5au8, 0x68u8];
        assert(magic@.take(2)[0] == magic@[0] && magic@.take(2)[1] == magic@[1]);
        assert(magic@.take(3)[0] == magic@[0] && magic@.take(3)[1] == magic@[1]
            && magic@.take(3)[2] == magic@[2]);
        if magic@[0] == 0x1f && magic@[1] == 0x8b {
            assert(magic@.take(2) =~= gzip);
        }
        if magic@[0] == 0x42 && magic@[1] == 0x5a && magic@[2] == 0x68 {
            assert(magic@.take(3) =~= bzip2);
        }
    }
    if magic[0] == 0x1f && magic[1] == 0x8b {
        "application/vnd.oci.image.layer.v1.tar+gzip"
    } else if magic[0] == 0x28 && magic[1] == 0xb5 && magic[2] == 0x2f && magic[3] == 0xfd {
        "application/vnd.oci.image.layer.v1.tar+zstd"
    } else if magic[0] == 0x42 && magic[1] == 0x5a && magic[2] == 0x68 {
        "application/vnd.oci.image.layer.v1.tar+bzip2"
    } else if magic[0] == 0xfd && magic[1] == 0x37 && magic[2] == 0x7a && magic[3] == 0x58 {
        "application/vnd.oci.image.layer.v1.tar+xz"
    } else {
        "application/vnd.oci.image.layer.v1.tar"
    }
}

// ── Digests and paths ───────────────────────────────────────────────────────

/// The hex part of a SHA-256 digest.
pub open spec fn digest_hex(digest: Seq<char>) -> Option<Seq<char>> {
    if "sha256:"@.is_prefix_of(digest) {
        Some(digest.skip(7))
    } else {
        None
    }
}

/// Strip the `sha256:` prefix from a digest. Any other algorithm is an error,
/// since only SHA-256 blobs are supported.
pub fn strip_digest_prefix(digest: &str) -> (r: Result<&str, ImageError>)
    ensures
        match r {
            Ok(hex) => digest_hex(digest@) == Some(hex@),
            Err(e) => digest_hex(digest@) is None && e@ == ImageFault::UnsupportedDigest(digest@),
        },
        match r {
            Ok(hex) => digest@ == "sha256:"@ + hex@,
            Err(_) => !"sha256:"@.is_prefix_of(digest@),
        },
{
    proof {
        reveal_strlit("sha256:");
    }
    if starts_with(digest, "sha256:") {
        let hex = digest.substring_char(7, digest.unicode_len());
        assert(hex@ =~= digest@.skip(7));
        assert(digest@ =~= digest@.subrange(0, 7) + hex@);
        Ok(hex)
    } else {
        Err(ImageError::UnsupportedDigest(digest.to_owned()))
    }
}

/// The path of the blob with the given hex digest.
pub open spec fn blob_path(hex: Seq<char>) -> Seq<char> {
    joined("blobs/sha256"@, hex)
}

// ── Manifest ────────────────────────────────────────────────────────────────

/// A blob that is to be read and parsed.
#[derive(Debug)]
pub struct BlobRequest {
    /// The path of the blob.
    pub path: String,
    /// Whether the blob is an index; otherwise it is a manifest.
    pub is_index: bool,
}

/// The values of a [`BlobRequest`].
#[verifier::ext_equal]
pub struct RequestView {
    pub path: Seq<char>,
    pub is_index: bool,
}

impl View for BlobRequest {
    type V = RequestView;

    open spec fn view(&self) -> RequestView {
        RequestView { path: self.path@, is_index: self.is_index }
    }
}

/// Where the manifest of an image is.
#[derive(Debug)]
pub enum ManifestSource {
    /// The manifest is complete.
    Manifest(OciManifest),
    /// The manifest is in a blob, or in one that the blob leads to.
    Blob(BlobRequest),
}

/// What a descriptor asks to be read: an index, if its media type says so, or
/// else a manifest.
pub open spec fn blob_request(d: DescriptorView) -> Result<RequestView, ImageFault> {
    match digest_hex(d.digest) {
        None => Err(ImageFault::UnsupportedDigest(d.digest)),
        Some(hex) => Ok(
            RequestView { path: blob_path(hex), is_index: is_index_type(d.media_type) },
        ),
    }
}

/// The last part of a path.
pub open spec fn last_piece(path: Seq<char>) -> Seq<char> {
    path.skip(last_at(path, '/') + 1)
}

/// The value of the first pair with the given key.
pub open spec fn source_type(
    sources: Seq<(String, String)>,
    digest: Seq<char>,
) -> Option<Seq<char>>
    decreases sources.len(),
{
    if sources.len() == 0 {
        None
    } else if sources[0].0@ == digest {
        Some(sources[0].1@)
    } else {
        source_type(sources.drop_first(), digest)
    }
}

/// The descriptor of a layer in a Docker save layout: its path, and the media
/// type that is listed under the digest in the path's last part, if one is.
pub open spec fn docker_layer(path: Seq<char>, sources: Seq<(String, String)>) -> DescriptorView {
    DescriptorView {
        digest: path,
        media_type: match source_type(sources, "sha256:"@ + last_piece(path)) {
            Some(t) => t,
            None => Seq::empty(),
        },
    }
}

/// The layers of a Docker save layout.
pub open spec fn docker_layers(m: DockerManifest) -> Seq<DescriptorView> {
    Seq::new(m.layers@.len(), |i: int| docker_layer(m.layers@[i]@, m.layer_sources@))
}

/// Where the manifest of an image is.
pub open spec fn manifest_source_is(
    index: Option<OciIndex>,
    docker: Option<Vec<DockerManifest>>,
    r: Result<ManifestSource, ImageError>,
) -> bool {
    match index {
        Some(i) => if i.manifests@.len() == 0 {
            r matches Err(e) && e@ == ImageFault::NoManifests
        } else {
            match blob_request(i.manifests@[0]@) {
                Ok(want) => r matches Ok(ManifestSource::Blob(b)) && b@ == want,
                Err(f) => r matches Err(e) && e@ == f,
            }
        },
        None => match docker {
            Some(images) => if images@.len() == 0 {
                r matches Err(e) && e@ == ImageFault::EmptyDockerManifest
            } else {
                r matches Ok(ManifestSource::Manifest(m)) && descriptor_views(m.layers@)
                    == docker_layers(images@[0])
            },
            None => r matches Err(e) && e@ == ImageFault::NoManifestFile,
        },
    }
}

/// Where the manifest of an image is, given the parsed index and Docker manifest
/// files, as far as the image directory has them.
///
/// The index comes first: its first manifest counts. The Docker manifest serves
/// where there is no index: its first image counts.
pub fn load_manifest(index: Option<OciIndex>, docker: Option<Vec<DockerManifest>>) -> (r: Result<
    ManifestSource,
    ImageError,
>)
    ensures
        manifest_source_is(index, docker, r),
        index is Some && index->Some_0.manifests@.len() == 0 <==> (r matches Err(e)
            && e is NoManifests),
        index is None && docker is Some && docker->Some_0@.len() == 0 <==> (r matches Err(e)
            && e is EmptyDockerManifest),
        index is None && docker is None <==> (r matches Err(e) && e is NoManifestFile),
        r matches Ok(ManifestSource::Blob(b)) ==> index is Some && index->Some_0.manifests@.len()
            > 0,
        r matches Ok(ManifestSource::Manifest(m)) ==> index is None && docker is Some
            && docker->Some_0@.len() > 0 && m.layers@.len() == docker->Some_0@[0].layers@.len(),
        r matches Ok(ManifestSource::Manifest(m)) ==> forall|i: int|
            0 <= i < m.layers@.len() ==> (#[trigger] m.layers@[i]).digest@
                == docker->Some_0@[0].layers@[i]@,
{
    if let Some(index) = &index {
        if index.manifests.len() == 0 {
            return Err(ImageError::NoManifests);
        }
        return match load_manifest_blob(&index.manifests[0]) {
            Ok(b) => Ok(ManifestSource::Blob(b)),
            Err(e) => Err(e),
        };
    }
    if let Some(images) = &docker {
        if images.len() == 0 {
            return Err(ImageError::EmptyDockerManifest);
        }
        return Ok(ManifestSource::Manifest(load_docker_manifest(&images[0])));
    }
    Err(ImageError::NoManifestFile)
}

/// The manifest of an image of a Docker save layout.
fn load_docker_manifest(image: &DockerManifest) -> (r: OciManifest)
    ensures
        descriptor_views(r.layers@) == docker_layers(*image),
        r.layers@.len() == image.layers@.len(),
        forall|i: int|
            0 <= i < r.layers@.len() ==> (#[trigger] r.layers@[i]).digest@ == image.layers@[i]@,
{
    let mut layers: Vec<OciDescriptor> = Vec::new();
    for i in 0..image.layers.len()
        invariant
            descriptor_views(layers@) == docker_layers(*image).take(i as int),
    {
        let ghost before = descriptor_views(layers@);
        let path = &image.layers[i];
        let v = chars_of(path.as_str());
        let start: usize = match find_last(&v, '/') {
            Some(p) => p + 1,
            None => 0,
        };
        let mut digest = "sha256:".to_owned();
        let piece = text_of(&v, start, v.len());
        assert(piece@ =~= last_piece(path@));
        digest.append(piece.as_str());
        let media_type = find_source(&image.layer_sources, digest.as_str());
        let layer = OciDescriptor { digest: path.clone(), media_type };
        let ghost l = layer@;
        layers.push(layer);
        proof {
            assert(l =~= docker_layers(*image)[i as int]);
            assert(descriptor_views(layers@) =~= before.push(l));
            assert(docker_layers(*image).take(i + 1) =~= docker_layers(*image).take(
                i as int,
            ).push(docker_layers(*image)[i as int]));
        }
    }
    assert(docker_layers(*image).take(image.layers.len() as int) =~= docker_layers(*image));
    proof {
        assert(descriptor_views(layers@).len() == docker_layers(*image).len());
        assert forall|i: int| 0 <= i < layers@.len() implies (#[trigger] layers@[i]).digest@
            == image.layers@[i]@ by {
            assert(descriptor_views(layers@)[i] == docker_layers(*image)[i]);
        }
    }
    OciManifest { layers }
}

/// The media type listed under a digest, or nothing.
fn find_source(sources: &Vec<(String, String)>, digest: &str) -> (r: String)
    ensures
        r@ == match source_type(sources@, digest@) {
            Some(t) => t,
            None => Seq::empty(),
        },
{
    assert(sources@.skip(0) =~= sources@);
    for i in 0..sources.len()
        invariant
            source_type(sources@.skip(i as int), digest@) == source_type(sources@, digest@),
    {
        if same_text(sources[i].0.as_str(), digest) {
            return sources[i].1.clone();
        }
        assert(sources@.skip(i as int).drop_first() =~= sources@.skip(i + 1));
    }
    let r = String::new();
    assert(r@ =~= Seq::empty());
    r
}

/// What is to be read for a descriptor of an index: an index, if its media type
/// says so, or else a manifest.
pub fn load_manifest_blob(desc: &OciDescriptor) -> (r: Result<BlobRequest, ImageError>)
    ensures
        match r {
            Ok(b) => blob_request(desc@) == Ok::<RequestView, ImageFault>(b@),
            Err(e) => blob_request(desc@) == Err::<RequestView, ImageFault>(e@),
        },
        r is Ok <==> "sha256:"@.is_prefix_of(desc.digest@),
        r matches Ok(b) ==> (b.is_index <==> desc.media_type@
            == "application/vnd.oci.image.index.v1+json"@ || desc.media_type@
            == "application/vnd.docker.distribution.manifest.list.v2+json"@),
{
    match strip_digest_prefix(desc.digest.as_str()) {
        Ok(hex) => Ok(
            BlobRequest {
                path: join_path("blobs/sha256", hex),
                is_index: is_index_media_type(desc.media_type.as_str()),
            },
        ),
        Err(e) => Err(e),
    }
}

/// The position of the first manifest of a single image, or the length.
pub open spec fn inner_at(manifests: Seq<DescriptorView>) -> int
    decreases manifests.len(),
{
    if manifests.len() == 0 || is_manifest_type(manifests[0].media_type) {
        0
    } else {
        1 + inner_at(manifests.drop_first())
    }
}

/// What a nested index asks to be read: the first manifest of a single image.
pub open spec fn nested_request(manifests: Seq<DescriptorView>) -> Result<RequestView, ImageFault> {
    let i = inner_at(manifests);
    if i >= manifests.len() {
        Err(ImageFault::NoInnerManifest)
    } else {
        match digest_hex(manifests[i].digest) {
            None => Err(ImageFault::UnsupportedDigest(manifests[i].digest)),
            Some(hex) => Ok(RequestView { path: blob_path(hex), is_index: false }),
        }
    }
}

/// What is to be read for a nested index: the manifest that its first entry for
/// a single image refers to. Entries that are indexes themselves are skipped;
/// one level of nesting is followed.
pub fn load_nested_manifest(nested: &OciIndex) -> (r: Result<BlobRequest, ImageError>)
    ensures
        match r {
            Ok(b) => nested_request(descriptor_views(nested.manifests@)) == Ok::<
                RequestView,
                ImageFault,
            >(b@),
            Err(e) => nested_request(descriptor_views(nested.manifests@)) == Err::<
                RequestView,
                ImageFault,
            >(e@),
        },
{
    let ghost all = descriptor_views(nested.manifests@);
    assert(all.skip(0) =~= all);
    for i in 0..nested.manifests.len()
        invariant
            all == descriptor_views(nested.manifests@),
            inner_at(all) == i + inner_at(all.skip(i as int)),
    {
        let desc = &nested.manifests[i];
        assert(all.skip(i as int)[0] == desc@);
        if is_manifest_media_type(desc.media_type.as_str()) {
            assert(inner_at(all) == i);
            return match strip_digest_prefix(desc.digest.as_str()) {
                Ok(hex) => Ok(
                    BlobRequest { path: join_path("blobs/sha256", hex), is_index: false },
                ),
                Err(e) => Err(e),
            };
        }
        assert(all.skip(i as int).drop_first() =~= all.skip(i + 1));
    }
    Err(ImageError::NoInnerManifest)
}

// ── Layers ──────────────────────────────────────────────────────────────────

/// What the file system says about a layer blob.
pub struct BlobProbe {
    /// Whether a directory is at the path of [`layer_location`].
    pub is_dir: bool,
    /// Whether anything is at the path of [`layer_path`].
    pub exists: bool,
    /// The first four bytes of the file there, if they could be read.
    pub magic: Option<[u8; 4]>,
}

/// Where a layer's blob is, before directories are looked into: under its
/// digest, or at a relative path in a Docker save layout.
pub open spec fn location(d: DescriptorView) -> Result<Seq<char>, ImageFault> {
    if d.digest.contains(':') {
        match digest_hex(d.digest) {
            None => Err(ImageFault::UnsupportedDigest(d.digest)),
            Some(hex) => Ok(blob_path(hex)),
        }
    } else {
        Ok(d.digest)
    }
}

/// The path of a layer's blob: in a directory at its location, the file named
/// by the layer's index.
pub open spec fn path_in(place: Seq<char>, index: nat, is_dir: bool) -> Seq<char> {
    if is_dir {
        joined(place, number_text(index, 10))
    } else {
        place
    }
}

/// The blob of a layer, given what the file system says.
pub open spec fn resolved(d: DescriptorView, index: nat, probe: BlobProbe) -> Result<
    BlobView,
    ImageFault,
> {
    match location(d) {
        Err(f) => Err(f),
        Ok(place) => {
            let path = path_in(place, index, probe.is_dir);
            if !probe.exists {
                Err(ImageFault::BlobNotFound(path))
            } else if d.media_type.len() > 0 {
                Ok(BlobView { path, media_type: d.media_type, index })
            } else {
                match probe.magic {
                    Some(m) => Ok(BlobView { path, media_type: detected_type(m@), index }),
                    None => Err(ImageFault::UndetectedMediaType(path)),
                }
            }
        },
    }
}

/// The blobs of layers in order, or what is wrong with the first that fails.
pub open spec fn all_resolved(layers: Seq<DescriptorView>, probes: Seq<BlobProbe>) -> Result<
    Seq<BlobView>,
    ImageFault,
>
    decreases layers.len(),
{
    if layers.len() == 0 {
        Ok(Seq::empty())
    } else {
        let n = (layers.len() - 1) as nat;
        match all_resolved(layers.drop_last(), probes) {
            Err(f) => Err(f),
            Ok(before) => match resolved(layers.last(), n, probes[n as int]) {
                Err(f) => Err(f),
                Ok(b) => Ok(before.push(b)),
            },
        }
    }
}

/// The values of layer blobs.
pub open spec fn blob_views(v: Seq<LayerBlob>) -> Seq<BlobView> {
    Seq::new(v.len(), |i: int| v[i]@)
}

/// Where a layer's blob is, before directories are looked into.
pub fn layer_location(desc: &OciDescriptor) -> (r: Result<String, ImageError>)
    ensures
        match r {
            Ok(p) => location(desc@) == Ok::<Seq<char>, ImageFault>(p@),
            Err(e) => location(desc@) == Err::<Seq<char>, ImageFault>(e@),
        },
{
    if contains_char(desc.digest.as_str(), ':') {
        match strip_digest_prefix(desc.digest.as_str()) {
            Ok(hex) => Ok(join_path("blobs/sha256", hex)),
            Err(e) => Err(e),
        }
    } else {
        Ok(desc.digest.clone())
    }
}

/// The path of the blob of layer `index`, which is at `place`, or in it if that
/// is a directory.
pub fn layer_path(place: &str, index: usize, is_dir: bool) -> (r: String)
    ensures
        r@ == path_in(place@, index as nat, is_dir),
{
    if is_dir {
        join_path(place, number(index as u64, 10).as_str())
    } else {
        place.to_owned()
    }
}

fn resolve_layer(desc: &OciDescriptor, index: usize, probe: &BlobProbe) -> (r: Result<
    LayerBlob,
    ImageError,
>)
    ensures
        match r {
            Ok(b) => resolved(desc@, index as nat, *probe) == Ok::<BlobView, ImageFault>(b@),
            Err(e) => resolved(desc@, index as nat, *probe) == Err::<BlobView, ImageFault>(e@),
        },
{
    let place = match layer_location(desc) {
        Ok(place) => place,
        Err(e) => return Err(e),
    };
    let path = layer_path(place.as_str(), index, probe.is_dir);
    if !probe.exists {
        return Err(ImageError::BlobNotFound(path));
    }
    if desc.media_type.as_str().unicode_len() > 0 {
        return Ok(LayerBlob { path, media_type: desc.media_type.clone(), index });
    }
    match &probe.magic {
        Some(magic) => Ok(LayerBlob { path, media_type: detect_media_type(magic).to_owned(), index }),
        None => Err(ImageError::UndetectedMediaType(path)),
    }
}

proof fn lemma_resolved_fault(layers: Seq<DescriptorView>, probes: Seq<BlobProbe>, n: int)
    requires
        0 <= n <= layers.len(),
        all_resolved(layers.take(n), probes) is Err,
    ensures
        all_resolved(layers, probes) == all_resolved(layers.take(n), probes),
    decreases layers.len() - n,
{
    if n < layers.len() {
        assert(layers.take(n + 1).drop_last() =~= layers.take(n));
        lemma_resolved_fault(layers, probes, n + 1);
    } else {
        assert(layers.take(n) =~= layers);
    }
}

/// Resolve the layers of a manifest to blobs, given what the file system says
/// about each.
///
/// Where the media type is not known, the first bytes of the blob tell it. A
/// directory at a blob's place holds the blob under the layer's index.
pub fn resolve_layers(manifest: &OciManifest, probes: &Vec<BlobProbe>) -> (r: Result<
    Vec<LayerBlob>,
    ImageError,
>)
    requires
        probes@.len() == manifest.layers@.len(),
    ensures
        match r {
            Ok(v) => all_resolved(descriptor_views(manifest.layers@), probes@) == Ok::<
                Seq<BlobView>,
                ImageFault,
            >(blob_views(v@)),
            Err(e) => all_resolved(descriptor_views(manifest.layers@), probes@) == Err::<
                Seq<BlobView>,
                ImageFault,
            >(e@),
        },
{
    let ghost all = descriptor_views(manifest.layers@);
    let mut blobs: Vec<LayerBlob> = Vec::new();
    assert(all.take(0) =~= Seq::empty());
    assert(blob_views(blobs@) =~= Seq::empty());
    for i in 0..manifest.layers.len()
        invariant
            probes@.len() == manifest.layers@.len(),
            all == descriptor_views(manifest.layers@),
            all_resolved(all.take(i as int), probes@) == Ok::<Seq<BlobView>, ImageFault>(
                blob_views(blobs@),
            ),
    {
        let ghost before = blob_views(blobs@);
        assert(all.take(i + 1).drop_last() =~= all.take(i as int));
        assert(all.take(i + 1).last() == manifest.layers@[i as int]@);
        match resolve_layer(&manifest.layers[i], i, &probes[i]) {
            Ok(blob) => {
                let ghost b = blob@;
                blobs.push(blob);
                assert(blob_views(blobs@) =~= before.push(b));
            },
            Err(e) => {
                proof {
                    lemma_resolved_fault(all, probes@, i + 1);
                }
                return Err(e);
            },
        }
    }
    assert(all.take(all.len() as int) =~= all);
    Ok(blobs)
}

// ── Laws ────────────────────────────────────────────────────────────────────

/// Resolved layers keep the order of the manifest: the blob at position `i` is
/// that of layer `i`.
pub proof fn law_resolved_in_order(layers: Seq<DescriptorView>, probes: Seq<BlobProbe>, i: int)
    requires
        all_resolved(layers, probes) is Ok,
        0 <= i < layers.len(),
    ensures
        all_resolved(layers, probes)->Ok_0.len() == layers.len(),
        all_resolved(layers, probes)->Ok_0[i].index == i,
        resolved(layers[i], i as nat, probes[i]) == Ok::<BlobView, ImageFault>(
            all_resolved(layers, probes)->Ok_0[i],
        ),
    decreases layers.len(),
{
    lemma_resolved_len(layers, probes);
    if i < layers.len() - 1 {
        law_resolved_in_order(layers.drop_last(), probes, i);
        lemma_resolved_len(layers.drop_last(), probes);
    } else {
        lemma_resolved_len(layers.drop_last(), probes);
    }
}

proof fn lemma_resolved_len(layers: Seq<DescriptorView>, probes: Seq<BlobProbe>)
    requires
        all_resolved(layers, probes) is Ok,
    ensures
        all_resolved(layers, probes)->Ok_0.len() == layers.len(),
    decreases layers.len(),
{
    if layers.len() > 0 {
        lemma_resolved_len(layers.drop_last(), probes);
    }
}

/// What is detected can be opened: every detected media type stands for a
/// compression.
pub proof fn law_detected_types_are_known(magic: Seq<u8>)
    requires
        magic.len() == 4,
    ensures
        compression_of(detected_type(magic)) is Some,
{
    reveal_strlit("+gzip");
    reveal_strlit("+zstd");
    reveal_strlit("+bzip2");
    reveal_strlit("+xz");
    reveal_strlit("application/vnd.oci.image.layer.v1.tar+gzip");
    reveal_strlit("application/vnd.oci.image.layer.v1.tar+zstd");
    reveal_strlit("application/vnd.oci.image.layer.v1.tar+bzip2");
    reveal_strlit("application/vnd.oci.image.layer.v1.tar+xz");
    let gzip = "application/vnd.oci.image.layer.v1.tar+gzip"@;
    let zstd = "application/vnd.oci.image.layer.v1.tar+zstd"@;
    let bzip2 = "application/vnd.oci.image.layer.v1.tar+bzip2"@;
    let xz = "application/vnd.oci.image.layer.v1.tar+xz"@;
    assert("+gzip"@ =~= gzip.subrange(gzip.len() - 5, gzip.len() as int));
    assert("+zstd"@ =~= zstd.subrange(zstd.len() - 5, zstd.len() as int));
    assert("+bzip2"@ =~= bzip2.subrange(bzip2.len() - 6, bzip2.len() as int));
    assert("+xz"@ =~= xz.subrange(xz.len() - 3, xz.len() as int));
}

/// Where the parts of a path are told apart by the last separator, what is
/// behind it is the last part.
pub proof fn law_last_piece_is_behind_the_separator(dir: Seq<char>, name: Seq<char>)
    requires
        !name.contains('/'),
    ensures
        last_piece(dir.push('/') + name) == name,
        last_piece(name) == name,
{
    lemma_last_at_behind(dir.push('/'), name);
    lemma_last_at_none(name);
    assert((dir.push('/') + name).skip(dir.len() + 1int) =~= name);
    assert(name.skip(0) =~= name);
}

proof fn lemma_last_at_none(name: Seq<char>)
    requires
        !name.contains('/'),
    ensures
        last_at(name, '/') == -1,
    decreases name.len(),
{
    if name.len() > 0 {
        assert(name.last() != '/') by {
            assert(name.contains(name[name.len() - 1]));
        }
        assert(!name.drop_last().contains('/')) by {
            if name.drop_last().contains('/') {
                let i = choose|i: int|
                    0 <= i < name.drop_last().len() && name.drop_last()[i] == '/';
                assert(name[i] == '/');
            }
        }
        lemma_last_at_none(name.drop_last());
    }
}

proof fn lemma_last_at_behind(dir: Seq<char>, name: Seq<char>)
    requires
        dir.len() > 0,
        dir.last() == '/',
        !name.contains('/'),
    ensures
        last_at(dir + name, '/') == dir.len() - 1,
    decreases name.len(),
{
    let all = dir + name;
    if name.len() == 0 {
        assert(all =~= dir);
    } else {
        assert(name[name.len() - 1] != '/');
        assert(!name.drop_last().contains('/')) by {
            if name.drop_last().contains('/') {
                let i = choose|i: int|
                    0 <= i < name.drop_last().len() && name.drop_last()[i] == '/';
                assert(name[i] == '/');
            }
        }
        lemma_last_at_behind(dir, name.drop_last());
        assert(all.drop_last() =~= dir + name.drop_last());
    }
}

/// The media type of a digest is that of the first pair with it.
pub proof fn law_first_source_counts(sources: Seq<(String, String)>, digest: Seq<char>, n: int)
    requires
        0 <= n <= sources.len(),
        forall|i: int| 0 <= i < n ==> (#[trigger] sources[i]).0@ != digest,
    ensures
        n == sources.len() ==> source_type(sources, digest) is None,
        n < sources.len() && sources[n].0@ == digest ==> source_type(sources, digest) == Some(
            sources[n].1@,
        ),
    decreases n,
{
    if n > 0 {
        assert(sources[0].0@ != digest);
        let rest = sources.drop_first();
        assert forall|i: int| 0 <= i < n - 1 implies (#[trigger] rest[i]).0@ != digest by {
            assert(rest[i] == sources[i + 1]);
        }
        law_first_source_counts(rest, digest, n - 1);
        if n < sources.len() {
            assert(rest[n - 1] == sources[n]);
        }
    }
}

/// A layer of a Docker save layout keeps its path, and has the media type that
/// is listed under the digest that ends the path, or none where no digest is
/// that one.
pub proof fn law_docker_layer_has_the_listed_type(
    dir: Seq<char>,
    name: Seq<char>,
    sources: Seq<(String, String)>,
    n: int,
)
    requires
        !name.contains('/'),
        0 <= n <= sources.len(),
        forall|i: int| 0 <= i < n ==> (#[trigger] sources[i]).0@ != "sha256:"@ + name,
    ensures
        docker_layer(dir.push('/') + name, sources).digest == dir.push('/') + name,
        n < sources.len() && sources[n].0@ == "sha256:"@ + name ==> docker_layer(
            dir.push('/') + name,
            sources,
        ).media_type == sources[n].1@,
        n == sources.len() ==> docker_layer(dir.push('/') + name, sources).media_type == Seq::<
            char,
        >::empty(),
{
    law_last_piece_is_behind_the_separator(dir, name);
    law_first_source_counts(sources, "sha256:"@ + name, n);
}

/// The first entry that is a manifest of a single image is read in a nested
/// index, whatever comes before it.
pub proof fn law_first_inner_manifest_is_read(manifests: Seq<DescriptorView>, n: int)
    requires
        0 <= n <= manifests.len(),
        forall|i: int|
            0 <= i < n ==> (#[trigger] manifests[i]).media_type
                != "application/vnd.oci.image.manifest.v1+json"@ && manifests[i].media_type
                != "application/vnd.docker.distribution.manifest.v2+json"@,
        n < manifests.len() ==> manifests[n].media_type
            == "application/vnd.oci.image.manifest.v1+json"@ || manifests[n].media_type
            == "application/vnd.docker.distribution.manifest.v2+json"@,
    ensures
        inner_at(manifests) == n,
        n == manifests.len() ==> nested_request(manifests) == Err::<RequestView, ImageFault>(
            ImageFault::NoInnerManifest,
        ),
        n < manifests.len() && !"sha256:"@.is_prefix_of(manifests[n].digest) ==> nested_request(
            manifests,
        ) == Err::<RequestView, ImageFault>(ImageFault::UnsupportedDigest(manifests[n].digest)),
    decreases n,
{
    if n > 0 {
        assert(!is_manifest_type(manifests[0].media_type));
        let rest = manifests.drop_first();
        assert forall|i: int| 0 <= i < n - 1 implies (#[trigger] rest[i]).media_type
            != "application/vnd.oci.image.manifest.v1+json"@ && rest[i].media_type
            != "application/vnd.docker.distribution.manifest.v2+json"@ by {
            assert(rest[i] == manifests[i + 1]);
        }
        if n < manifests.len() {
            assert(rest[n - 1] == manifests[n]);
        }
        law_first_inner_manifest_is_read(rest, n - 1);
    }
}

/// A blob with a SHA-256 digest is under `blobs/sha256/`, at the hex part: the
/// blob of a manifest or index, that of a nested manifest, and that of a layer.
pub proof fn law_blob_is_at_its_digest(
    hex: Seq<char>,
    media_type: Seq<char>,
    manifests: Seq<DescriptorView>,
    n: int,
)
    requires
        hex.len() > 0,
        hex[0] != '/',
        0 <= n < manifests.len(),
        inner_at(manifests) == n,
        manifests[n].digest == "sha256:"@ + hex,
    ensures
        blob_request(DescriptorView { digest: "sha256:"@ + hex, media_type })->Ok_0.path
            == "blobs/sha256/"@ + hex,
        location(DescriptorView { digest: "sha256:"@ + hex, media_type }) == Ok::<
            Seq<char>,
            ImageFault,
        >("blobs/sha256/"@ + hex),
        nested_request(manifests) == Ok::<RequestView, ImageFault>(
            RequestView { path: "blobs/sha256/"@ + hex, is_index: false },
        ),
{
    reveal_strlit("sha256:");
    reveal_strlit("blobs/sha256");
    reveal_strlit("blobs/sha256/");
    let d = "sha256:"@ + hex;
    assert("sha256:"@ =~= d.subrange(0, 7));
    assert(d.skip(7) =~= hex);
    assert(d[6] == ':');
    assert(d.contains(':'));
    assert(joined("blobs/sha256"@, hex) =~= "blobs/sha256/"@ + hex);
}

/// A layer whose digest holds no colon is at the path that stands in its place,
/// and one with another algorithm than SHA-256 is an error.
pub proof fn law_other_layers_are_at_their_path(d: DescriptorView)
    ensures
        !d.digest.contains(':') ==> location(d) == Ok::<Seq<char>, ImageFault>(d.digest),
        d.digest.contains(':') && !"sha256:"@.is_prefix_of(d.digest) ==> location(d) == Err::<
            Seq<char>,
            ImageFault,
        >(ImageFault::UnsupportedDigest(d.digest)),
{
}

/// The blob of a layer is at its place, or where that is a directory, in it
/// under the number of the layer.
pub proof fn law_blob_in_a_directory_is_named_by_the_layer(place: Seq<char>, index: nat)
    requires
        place.len() > 0,
        place.last() != '/',
    ensures
        path_in(place, index, false) == place,
        path_in(place, index, true) == place.push('/') + number_text(index, 10),
        value_of(number_text(index, 10), 10) == index,
{
    law_number_has_its_value(index, 10);
}

/// A blob that is there has its own media type, or where that is not known the
/// one that its first bytes tell. Without a blob, or without its first bytes
/// where they are needed, there is an error that names the path.
pub proof fn law_known_media_type_stays(d: DescriptorView, index: nat, probe: BlobProbe)
    requires
        location(d) is Ok,
    ensures
        !probe.exists <==> resolved(d, index, probe) matches Err(ImageFault::BlobNotFound(_)),
        probe.exists && d.media_type.len() > 0 ==> (resolved(d, index, probe) matches Ok(b)
            && b.media_type == d.media_type && b.index == index),
        probe.exists && d.media_type.len() == 0 && probe.magic is Some ==> (resolved(
            d,
            index,
            probe,
        ) matches Ok(b) && b.media_type == detected_type(probe.magic->Some_0@) && b.index == index),
        probe.exists && d.media_type.len() == 0 && probe.magic is None ==> resolved(
            d,
            index,
            probe,
        ) matches Err(ImageFault::UndetectedMediaType(_)),
        resolved(d, index, probe) matches Ok(b) ==> b.path == path_in(
            location(d)->Ok_0,
            index,
            probe.is_dir,
        ),
        resolved(d, index, probe) matches Err(ImageFault::BlobNotFound(p)) ==> p == path_in(
            location(d)->Ok_0,
            index,
            probe.is_dir,
        ),
        resolved(d, index, probe) matches Err(ImageFault::UndetectedMediaType(p)) ==> p == path_in(
            location(d)->Ok_0,
            index,
            probe.is_dir,
        ),
{
}

/// Layers cannot be resolved exactly when one of them cannot, and what is wrong
/// is what is wrong with the first.
pub proof fn law_first_layer_that_fails_is_the_error(
    layers: Seq<DescriptorView>,
    probes: Seq<BlobProbe>,
    n: int,
)
    requires
        0 <= n < layers.len(),
        forall|i: int|
            0 <= i < n ==> resolved(#[trigger] layers[i], i as nat, probes[i]) is Ok,
        resolved(layers[n], n as nat, probes[n]) is Err,
    ensures
        all_resolved(layers, probes) == Err::<Seq<BlobView>, ImageFault>(
            resolved(layers[n], n as nat, probes[n])->Err_0,
        ),
{
    lemma_all_good(layers.take(n), probes);
    assert(layers.take(n + 1).drop_last() =~= layers.take(n));
    assert(layers.take(n + 1).last() == layers[n]);
    lemma_resolved_fault(layers, probes, n + 1);
}

proof fn lemma_all_good(layers: Seq<DescriptorView>, probes: Seq<BlobProbe>)
    requires
        forall|i: int|
            0 <= i < layers.len() ==> resolved(#[trigger] layers[i], i as nat, probes[i]) is Ok,
    ensures
        all_resolved(layers, probes) is Ok,
    decreases layers.len(),
{
    if layers.len() > 0 {
        let rest = layers.drop_last();
        assert forall|i: int| 0 <= i < rest.len() implies resolved(
            #[trigger] rest[i],
            i as nat,
            probes[i],
        ) is Ok by {
            assert(rest[i] == layers[i]);
        }
        lemma_all_good(rest, probes);
        assert(resolved(layers[layers.len() - 1], (layers.len() - 1) as nat, probes[layers.len()
            - 1]) is Ok);
    }
}

/// Indexes and manifests are told by their media types, those of OCI and of
/// Docker, and no media type is both.
pub proof fn law_media_types_tell_indexes_from_manifests(m: Seq<char>)
    ensures
        is_index_type("application/vnd.oci.image.index.v1+json"@),
        is_index_type("application/vnd.docker.distribution.manifest.list.v2+json"@),
        is_manifest_type("application/vnd.oci.image.manifest.v1+json"@),
        is_manifest_type("application/vnd.docker.distribution.manifest.v2+json"@),
        !(is_index_type(m) && is_manifest_type(m)),
        is_index_type(m) ==> m == "application/vnd.oci.image.index.v1+json"@ || m
            == "application/vnd.docker.distribution.manifest.list.v2+json"@,
        is_manifest_type(m) ==> m == "application/vnd.oci.image.manifest.v1+json"@ || m
            == "application/vnd.docker.distribution.manifest.v2+json"@,
{
    reveal_strlit("application/vnd.oci.image.index.v1+json");
    reveal_strlit("application/vnd.docker.distribution.manifest.list.v2+json");
    reveal_strlit("application/vnd.oci.image.manifest.v1+json");
    reveal_strlit("application/vnd.docker.distribution.manifest.v2+json");
    let a = "application/vnd.oci.image.index.v1+json"@;
    let b = "application/vnd.docker.distribution.manifest.list.v2+json"@;
    let c = "application/vnd.oci.image.manifest.v1+json"@;
    let d = "application/vnd.docker.distribution.manifest.v2+json"@;
    assert(a.len() != c.len() && a.len() != d.len() && b.len() != c.len() && b.len() != d.len());
}

/// The first bytes of a blob tell its compression by the marks of the formats,
/// and anything else is a plain archive.
pub proof fn law_marks_tell_the_compression(a: u8, b: u8, c: u8, d: u8)
    ensures
        detected_type(seq![0x1fu8, 0x8bu8, c, d]) == "application/vnd.oci.image.layer.v1.tar+gzip"@,
        detected_type(seq![0x28u8, 0xb5u8, 0x2fu8, 0xfdu8])
            == "application/vnd.oci.image.layer.v1.tar+zstd"@,
        detected_type(seq![0x42u8, 0x5au8, 0x68u8, d])
            == "application/vnd.oci.image.layer.v1.tar+bzip2"@,
        detected_type(seq![0xfdu8, 0x37u8, 0x7au8, 0x58u8])
            == "application/vnd.oci.image.layer.v1.tar+xz"@,
        !(a == 0x1f && b == 0x8b) && !(a == 0x28 && b == 0xb5 && c == 0x2f && d == 0xfd) && !(a
            == 0x42 && b == 0x5a && c == 0x68) && !(a == 0xfd && b == 0x37 && c == 0x7a && d
            == 0x58) ==> detected_type(seq![a, b, c, d])
            == "application/vnd.oci.image.layer.v1.tar"@,
{
    let z = seq![0x28u8, 0xb5u8, 0x2fu8, 0xfdu8];
    let x = seq![0xfdu8, 0x37u8, 0x7au8, 0x58u8];
    let m = seq![a, b, c, d];
    let k = seq![0x42u8, 0x5au8, 0x68u8, d];
    assert(z[0] == 0x28 && z[1] == 0xb5 && z[2] == 0x2f && z[3] == 0xfd);
    assert(x[0] == 0xfd && x[1] == 0x37 && x[2] == 0x7a && x[3] == 0x58);
    assert(m[0] == a && m[1] == b && m[2] == c && m[3] == d);
    assert(k[0] == 0x42 && k[1] == 0x5a && k[2] == 0x68);
    let g = seq![0x1fu8, 0x8bu8, c, d];
    assert(g[0] == 0x1f && g[1] == 0x8b);
}

/// The first manifest of an index is what is read, at its digest; without an
/// index, the layers are those of the first image of the Docker manifest, in
/// order.
pub proof fn law_first_manifest_counts(
    index: Option<OciIndex>,
    docker: Option<Vec<DockerManifest>>,
    r: Result<ManifestSource, ImageError>,
    hex: Seq<char>,
)
    requires
        manifest_source_is(index, docker, r),
        hex.len() > 0,
        hex[0] != '/',
    ensures
        index matches Some(i) && i.manifests@.len() > 0 && i.manifests@[0].digest@ == "sha256:"@
            + hex ==> (r matches Ok(ManifestSource::Blob(b)) && b.path@ == "blobs/sha256/"@ + hex),
        index is None && (docker matches Some(images) && images@.len() > 0) ==> (r matches Ok(
            ManifestSource::Manifest(m),
        ) && m.layers@.len() == docker->Some_0@[0].layers@.len() && forall|i: int|
            0 <= i < m.layers@.len() ==> (#[trigger] m.layers@[i]).digest@
                == docker->Some_0@[0].layers@[i]@),
{
    reveal_strlit("sha256:");
    reveal_strlit("blobs/sha256");
    reveal_strlit("blobs/sha256/");
    let d = "sha256:"@ + hex;
    assert("sha256:"@ =~= d.subrange(0, 7));
    assert(d.skip(7) =~= hex);
    assert(joined("blobs/sha256"@, hex) =~= "blobs/sha256/"@ + hex);
    if index is None && (docker matches Some(images) && images@.len() > 0) {
        if let Ok(ManifestSource::Manifest(m)) = r {
            let image = docker->Some_0@[0];
            assert(descriptor_views(m.layers@).len() == docker_layers(image).len());
            assert forall|i: int| 0 <= i < m.layers@.len() implies (#[trigger] m.layers@[i]).digest@
                == image.layers@[i]@ by {
                assert(descriptor_views(m.layers@)[i] == docker_layers(image)[i]);
            }
        }
    }
}

} // verus!
