//! What is written and downloaded when an image is fetched or pulled.
//!
//! A fetch goes through three stages. [`fetch_begun`] says what is written
//! before the manifest is resolved, [`fetch_resolved`] what is written once it
//! is, and [`fetch_listed`] which blobs are downloaded once the manifest has
//! been parsed. A pull goes straight to [`pull_listed`]. All paths are relative
//! to the output directory.

use crate::digest::{
    content_digest, digest_text, hex_text, hex_value, law_hex_spells_every_byte,
    lemma_digest_text, sha256_of,
};
use crate::image::{
    blob_path, blob_request, digest_hex, is_index_type, location, strip_digest_prefix,
    DescriptorView, ImageFault, RequestView,
};
use crate::packer::{meta_views, LayerMeta, MetaView};
use crate::path::join_path;
use crate::registry::client::{
    abbrev, abbreviated, index_document, index_text, layer_label, layer_metas, layout_document,
    position_label, worker_count, workers, RawDescriptor,
};
use crate::text::{copy_bytes, number, number_text};
use vstd::prelude::*;
use vstd::string::*;
use vstd::utf8::encode_utf8;

verus! {

// ── Steps ───────────────────────────────────────────────────────────────────

/// A file that is to be written.
pub struct FileWrite {
    pub path: String,
    pub content: Vec<u8>,
}

/// The values of a [`FileWrite`].
#[verifier::ext_equal]
pub struct FileView {
    pub path: Seq<char>,
    pub content: Seq<u8>,
}

impl View for FileWrite {
    type V = FileView;

    open spec fn view(&self) -> FileView {
        FileView { path: self.path@, content: self.content@ }
    }
}

/// The values of files.
pub open spec fn file_views(v: Seq<FileWrite>) -> Seq<FileView> {
    Seq::new(v.len(), |i: int| v[i]@)
}

/// A blob that is to be downloaded, unless it is there.
pub struct BlobDownload {
    pub digest: String,
    pub size: u64,
    /// Where the blob goes. `None` where the digest is not a SHA-256 digest, so
    /// that the download fails when its turn comes.
    pub place: Option<String>,
    /// The label of the download.
    pub label: String,
    /// The label where the blob is there.
    pub cached_label: String,
}

/// The values of a [`BlobDownload`].
#[verifier::ext_equal]
pub struct DownloadView {
    pub digest: Seq<char>,
    pub size: u64,
    pub place: Option<Seq<char>>,
    pub label: Seq<char>,
    pub cached_label: Seq<char>,
}

impl View for BlobDownload {
    type V = DownloadView;

    open spec fn view(&self) -> DownloadView {
        DownloadView {
            digest: self.digest@,
            size: self.size,
            place: match self.place {
                Some(p) => Some(p@),
                None => None,
            },
            label: self.label@,
            cached_label: self.cached_label@,
        }
    }
}

/// The values of downloads.
pub open spec fn download_views(v: Seq<BlobDownload>) -> Seq<DownloadView> {
    Seq::new(v.len(), |i: int| v[i]@)
}

/// What comes next in a fetch.
pub enum FetchStep {
    /// Write the files, and be done.
    Finish(Vec<FileWrite>),
    /// Write the files, then parse the manifest.
    Parse(Vec<FileWrite>),
    /// Download the config, then the layers in this order with this many
    /// workers.
    Download { config: Option<BlobDownload>, layers: Vec<BlobDownload>, workers: usize },
    /// The manifest lists no layers.
    NoLayers,
    /// The digest of the config is not a SHA-256 digest.
    UnsupportedDigest(String),
}

// ── Before the manifest ─────────────────────────────────────────────────────

/// The file that marks an image layout.
pub open spec fn layout_file() -> FileView {
    FileView {
        path: "oci-layout"@,
        content: encode_utf8("{\"imageLayoutVersion\":\"1.0.0\"}"@),
    }
}

/// What is written before the manifest is resolved: the file that marks an
/// image layout.
pub fn fetch_begun() -> (r: FileWrite)
    ensures
        r@ == layout_file(),
        r.path@ == "oci-layout"@,
        r.content@ == encode_utf8("{\"imageLayoutVersion\":\"1.0.0\"}"@),
{
    FileWrite {
        path: "oci-layout".to_owned(),
        content: copy_bytes(layout_document().as_bytes()),
    }
}

// ── The manifest ────────────────────────────────────────────────────────────

/// What is written for a manifest: its blob, and an index that leads there.
pub open spec fn manifest_files(media_type: Seq<char>, manifest: Seq<u8>) -> Seq<FileView> {
    let digest = digest_text(manifest);
    seq![
        FileView { path: blob_path(digest_hex(digest)->Some_0), content: manifest },
        FileView {
            path: "index.json"@,
            content: encode_utf8(index_text(media_type, digest, manifest.len())),
        },
    ]
}

/// What comes once the manifest has been resolved: it is written, with an index
/// that leads to it. Where only the manifest is wanted, that is all.
pub fn fetch_resolved(media_type: &str, manifest: &[u8], manifest_only: bool) -> (r: FetchStep)
    ensures
        match r {
            FetchStep::Finish(files) => manifest_only && file_views(files@) == manifest_files(
                media_type@,
                manifest@,
            ),
            FetchStep::Parse(files) => !manifest_only && file_views(files@) == manifest_files(
                media_type@,
                manifest@,
            ),
            _ => false,
        },
{
    let digest = content_digest(manifest);
    proof {
        lemma_digest_text(manifest@);
    }
    let hex = strip_digest_prefix(digest.as_str()).unwrap();
    let index = index_document(media_type, digest.as_str(), manifest.len());
    let blob = FileWrite { path: join_path("blobs/sha256", hex), content: copy_bytes(manifest) };
    let index = FileWrite {
        path: "index.json".to_owned(),
        content: copy_bytes(index.as_str().as_bytes()),
    };
    let ghost (b, i) = (blob@, index@);
    let mut files: Vec<FileWrite> = Vec::new();
    files.push(blob);
    files.push(index);
    assert(file_views(files@) =~= seq![b, i]);
    if manifest_only {
        FetchStep::Finish(files)
    } else {
        FetchStep::Parse(files)
    }
}

// ── The blobs ───────────────────────────────────────────────────────────────

/// Where the blob of a digest goes.
pub open spec fn blob_place(digest: Seq<char>) -> Option<Seq<char>> {
    match digest_hex(digest) {
        Some(hex) => Some(blob_path(hex)),
        None => None,
    }
}

/// The download of the config.
pub open spec fn config_download(d: RawDescriptor) -> DownloadView {
    DownloadView {
        digest: d.digest@,
        size: d.size,
        place: blob_place(d.digest@),
        label: "[config] "@ + abbreviated(d.digest@),
        cached_label: "[config] "@ + abbreviated(d.digest@),
    }
}

/// The download of layer `i` of `total`.
pub open spec fn layer_download(d: RawDescriptor, i: nat, total: nat) -> DownloadView {
    DownloadView {
        digest: d.digest@,
        size: d.size,
        place: blob_place(d.digest@),
        label: position_label(i, total, 2, d.digest@),
        cached_label: position_label(i, total, 0, d.digest@),
    }
}

/// The downloads of layers, from the highest index down, as they are merged.
pub open spec fn layer_downloads(layers: Seq<RawDescriptor>) -> Seq<DownloadView> {
    Seq::new(
        layers.len(),
        |j: int|
            layer_download(
                layers[layers.len() - 1 - j],
                (layers.len() - 1 - j) as nat,
                layers.len(),
            ),
    )
}

/// What comes once the manifest has been parsed.
pub open spec fn listed_step_is(
    config: Option<RawDescriptor>,
    layers: Seq<RawDescriptor>,
    concurrency: usize,
    step: FetchStep,
) -> bool {
    if layers.len() == 0 {
        step is NoLayers
    } else if config is Some && digest_hex(config->Some_0.digest@) is None {
        step matches FetchStep::UnsupportedDigest(d) && d@ == config->Some_0.digest@
    } else {
        &&& step is Download
        &&& config matches Some(c) ==> step->config is Some && step->config->Some_0@
            == config_download(c)
        &&& config is None ==> step->config is None
        &&& download_views(step->layers@) == layer_downloads(layers)
        &&& step->workers == workers(concurrency as nat, layers.len())
    }
}

fn place_of(digest: &str) -> (r: Option<String>)
    ensures
        match r {
            Some(p) => blob_place(digest@) == Some(p@),
            None => blob_place(digest@) is None,
        },
{
    match strip_digest_prefix(digest) {
        Ok(hex) => Some(join_path("blobs/sha256", hex)),
        Err(_) => None,
    }
}

/// What comes once the manifest has been parsed: the config is downloaded, where
/// there is one, and then the layers from the highest index down. A manifest
/// without layers is refused, as when the platform is the wrong one.
pub fn fetch_listed(
    config: &Option<RawDescriptor>,
    layers: &Vec<RawDescriptor>,
    concurrency: usize,
) -> (r: FetchStep)
    ensures
        listed_step_is(*config, layers@, concurrency, r),
        r is NoLayers <==> layers@.len() == 0,
        r is UnsupportedDigest <==> layers@.len() > 0 && (config matches Some(c)
            && !"sha256:"@.is_prefix_of(c.digest@)),
        r is Download <==> layers@.len() > 0 && (config matches Some(c)
            ==> "sha256:"@.is_prefix_of(c.digest@)),
        r is Download ==> (r->config is Some <==> config is Some) && r->layers@.len()
            == layers@.len(),
{
    let total: usize = layers.len();
    if total == 0 {
        return FetchStep::NoLayers;
    }
    let config = match config {
        None => None,
        Some(c) => {
            let place = place_of(c.digest.as_str());
            if place.is_none() {
                return FetchStep::UnsupportedDigest(c.digest.clone());
            }
            let mut label = "[config] ".to_owned();
            label.append(abbrev(c.digest.as_str()).as_str());
            let cached_label = label.clone();
            Some(
                BlobDownload {
                    digest: c.digest.clone(),
                    size: c.size,
                    place,
                    label,
                    cached_label,
                },
            )
        },
    };
    let mut queue: Vec<BlobDownload> = Vec::new();
    assert(download_views(queue@) =~= layer_downloads(layers@).take(0));
    for j in 0..total
        invariant
            total == layers.len(),
            download_views(queue@) == layer_downloads(layers@).take(j as int),
    {
        let i: usize = total - 1 - j;
        let layer = &layers[i];
        let digest = layer.digest.as_str();
        let ghost before = download_views(queue@);
        let download = BlobDownload {
            digest: layer.digest.clone(),
            size: layer.size,
            place: place_of(digest),
            label: layer_label(i, total, 2, digest),
            cached_label: layer_label(i, total, 0, digest),
        };
        let ghost d = download@;
        queue.push(download);
        proof {
            let all = layer_downloads(layers@);
            assert(d =~= all[j as int]);
            assert(download_views(queue@) =~= before.push(d));
            assert(all.take(j + 1) =~= all.take(j as int).push(all[j as int]));
        }
    }
    assert(layer_downloads(layers@).take(total as int) =~= layer_downloads(layers@));
    assert(download_views(queue@).len() == layers@.len());
    FetchStep::Download { config, layers: queue, workers: worker_count(concurrency, total) }
}

// ── Pulling ─────────────────────────────────────────────────────────────────

/// A layer that is to be downloaded to a temporary file.
pub struct LayerPull {
    pub index: usize,
    pub digest: String,
    pub size: u64,
    /// The name of the temporary file.
    pub file_name: String,
    /// The label of the download.
    pub label: String,
}

/// The values of a [`LayerPull`].
#[verifier::ext_equal]
pub struct PullView {
    pub index: nat,
    pub digest: Seq<char>,
    pub size: u64,
    pub file_name: Seq<char>,
    pub label: Seq<char>,
}

impl View for LayerPull {
    type V = PullView;

    open spec fn view(&self) -> PullView {
        PullView {
            index: self.index as nat,
            digest: self.digest@,
            size: self.size,
            file_name: self.file_name@,
            label: self.label@,
        }
    }
}

/// The values of layers that are to be downloaded.
pub open spec fn pull_views(v: Seq<LayerPull>) -> Seq<PullView> {
    Seq::new(v.len(), |i: int| v[i]@)
}

/// The download of layer `i` of `total` to a temporary file.
pub open spec fn layer_pull(d: RawDescriptor, i: nat, total: nat) -> PullView {
    PullView {
        index: i,
        digest: d.digest@,
        size: d.size,
        file_name: "layer-"@ + number_text(i, 10),
        label: position_label(i, total, 2, d.digest@),
    }
}

/// The downloads of layers to temporary files, from the highest index down.
pub open spec fn layer_pulls(layers: Seq<RawDescriptor>) -> Seq<PullView> {
    Seq::new(
        layers.len(),
        |j: int|
            layer_pull(
                layers[layers.len() - 1 - j],
                (layers.len() - 1 - j) as nat,
                layers.len(),
            ),
    )
}

/// What is done in a pull.
pub struct PullPlan {
    /// The layers that the packer is to expect, in the order of the manifest.
    pub metas: Vec<LayerMeta>,
    /// The downloads, in their order.
    pub downloads: Vec<LayerPull>,
    /// How many downloads run at once.
    pub workers: usize,
}

/// What is done in a pull once the manifest has been parsed. `None` where it
/// lists no layers.
pub fn pull_listed(layers: &Vec<RawDescriptor>, concurrency: usize) -> (r: Option<PullPlan>)
    ensures
        match r {
            None => layers@.len() == 0,
            Some(plan) => {
                &&& layers@.len() > 0
                &&& meta_views(plan.metas@) == Seq::new(
                    layers@.len(),
                    |i: int| MetaView { index: i as nat, media_type: layers@[i].media_type@ },
                )
                &&& pull_views(plan.downloads@) == layer_pulls(layers@)
                &&& plan.workers == workers(concurrency as nat, layers@.len())
            },
        },
{
    let metas = match layer_metas(layers) {
        None => return None,
        Some(metas) => metas,
    };
    let total: usize = layers.len();
    let mut downloads: Vec<LayerPull> = Vec::new();
    assert(pull_views(downloads@) =~= layer_pulls(layers@).take(0));
    for j in 0..total
        invariant
            total == layers.len(),
            pull_views(downloads@) == layer_pulls(layers@).take(j as int),
    {
        let i: usize = total - 1 - j;
        let layer = &layers[i];
        let ghost before = pull_views(downloads@);
        let mut file_name = "layer-".to_owned();
        file_name.append(number(i as u64, 10).as_str());
        let pull = LayerPull {
            index: i,
            digest: layer.digest.clone(),
            size: layer.size,
            file_name,
            label: layer_label(i, total, 2, layer.digest.as_str()),
        };
        let ghost p = pull@;
        downloads.push(pull);
        proof {
            let all = layer_pulls(layers@);
            assert(p =~= all[j as int]);
            assert(pull_views(downloads@) =~= before.push(p));
            assert(all.take(j + 1) =~= all.take(j as int).push(all[j as int]));
        }
    }
    assert(layer_pulls(layers@).take(total as int) =~= layer_pulls(layers@));
    Some(PullPlan { metas, downloads, workers: worker_count(concurrency, total) })
}

// ── Laws ────────────────────────────────────────────────────────────────────

/// A fetched directory can be loaded: the descriptor that the index lists leads
/// to the file that the manifest was written to, and it is parsed as an index
/// exactly where its media type is one.
pub proof fn law_fetched_manifest_is_found(media_type: Seq<char>, manifest: Seq<u8>)
    ensures
        blob_request(DescriptorView { digest: digest_text(manifest), media_type }) == Ok::<
            RequestView,
            ImageFault,
        >(
            RequestView {
                path: manifest_files(media_type, manifest)[0].path,
                is_index: is_index_type(media_type),
            },
        ),
        manifest_files(media_type, manifest)[0].content == manifest,
{
    lemma_digest_text(manifest);
}

/// A fetched layer is found where it was downloaded to.
pub proof fn law_fetched_layer_is_found(layers: Seq<RawDescriptor>, i: int)
    requires
        0 <= i < layers.len(),
        digest_hex(layers[i].digest@) is Some,
    ensures
        location(
            DescriptorView { digest: layers[i].digest@, media_type: layers[i].media_type@ },
        ) == Ok::<Seq<char>, ImageFault>(
            layer_downloads(layers)[layers.len() - 1 - i].place->Some_0,
        ),
{
    reveal_strlit("sha256:");
    let digest = layers[i].digest@;
    assert("sha256:"@[6] == ':');
    assert(digest[6] == ':');
    assert(digest.contains(':'));
    let j = layers.len() - 1 - i;
    assert(layer_downloads(layers)[j] == layer_download(layers[i], i as nat, layers.len()));
}

/// The manifest goes under `blobs/sha256/` at the hash of its content, and the
/// index names it by that hash and its size.
pub proof fn law_manifest_is_written_at_its_hash(media_type: Seq<char>, manifest: Seq<u8>)
    ensures
        manifest_files(media_type, manifest).len() == 2,
        manifest_files(media_type, manifest)[0].path == "blobs/sha256/"@ + hex_text(
            sha256_of(manifest),
        ),
        manifest_files(media_type, manifest)[0].content == manifest,
        manifest_files(media_type, manifest)[1].path == "index.json"@,
        manifest_files(media_type, manifest)[1].content == encode_utf8(
            index_text(media_type, "sha256:"@ + hex_text(sha256_of(manifest)), manifest.len()),
        ),
{
    lemma_digest_text(manifest);
    let hash = sha256_of(manifest);
    let hex = hex_text(hash);
    reveal_strlit("blobs/sha256");
    reveal_strlit("blobs/sha256/");
    if hash.len() > 0 {
        law_hex_spells_every_byte(hash, 0);
        assert(hex_value(hex[0]) < 16);
    } else {
        assert(hex.len() == 0);
    }
    assert(blob_path(hex) =~= "blobs/sha256/"@ + hex);
}

/// The blobs of layers are downloaded from the last layer to the first, each
/// under its own digest and with its own size, to `blobs/sha256/`.
pub proof fn law_layers_are_downloaded_from_the_last(
    layers: Seq<RawDescriptor>,
    i: int,
    hex: Seq<char>,
)
    requires
        0 <= i < layers.len(),
    ensures
        layer_downloads(layers).len() == layers.len(),
        layer_downloads(layers)[layers.len() - 1 - i].digest == layers[i].digest@,
        layer_downloads(layers)[layers.len() - 1 - i].size == layers[i].size,
        layers[i].digest@ == "sha256:"@ + hex && hex.len() > 0 && hex[0] != '/'
            ==> layer_downloads(layers)[layers.len() - 1 - i].place == Some(
            "blobs/sha256/"@ + hex,
        ),
        !"sha256:"@.is_prefix_of(layers[i].digest@) ==> layer_downloads(layers)[layers.len() - 1
            - i].place is None,
        layer_downloads(layers)[layers.len() - 1 - i].label == position_label(
            i as nat,
            layers.len(),
            2,
            layers[i].digest@,
        ),
        layer_downloads(layers)[layers.len() - 1 - i].cached_label == position_label(
            i as nat,
            layers.len(),
            0,
            layers[i].digest@,
        ),
{
    let j = layers.len() - 1 - i;
    assert(layer_downloads(layers)[j] == layer_download(layers[i], i as nat, layers.len()));
    lemma_place(layers[i].digest@, hex);
}

proof fn lemma_place(digest: Seq<char>, hex: Seq<char>)
    ensures
        digest == "sha256:"@ + hex && hex.len() > 0 && hex[0] != '/' ==> blob_place(digest)
            == Some("blobs/sha256/"@ + hex),
        !"sha256:"@.is_prefix_of(digest) ==> blob_place(digest) is None,
{
    if digest == "sha256:"@ + hex && hex.len() > 0 && hex[0] != '/' {
        reveal_strlit("sha256:");
        reveal_strlit("blobs/sha256");
        reveal_strlit("blobs/sha256/");
        assert("sha256:"@ =~= digest.subrange(0, 7));
        assert(digest.skip(7) =~= hex);
        assert(blob_path(hex) =~= "blobs/sha256/"@ + hex);
    }
}

/// The config is downloaded under its own digest and with its own size, to
/// `blobs/sha256/`, and is labelled as what it is.
pub proof fn law_config_is_downloaded(d: RawDescriptor, hex: Seq<char>)
    requires
        d.digest@ == "sha256:"@ + hex,
        hex.len() > 0,
        hex[0] != '/',
    ensures
        config_download(d).digest == d.digest@,
        config_download(d).size == d.size,
        config_download(d).place == Some("blobs/sha256/"@ + hex),
        "[config] sha256:"@.is_prefix_of(config_download(d).label),
        config_download(d).cached_label == config_download(d).label,
{
    lemma_place(d.digest@, hex);
    reveal_strlit("sha256:");
    reveal_strlit("[config] ");
    reveal_strlit("[config] sha256:");
    let label = config_download(d).label;
    assert("[config] sha256:"@ =~= label.subrange(0, 16));
}

/// The layers of a pull are downloaded from the last to the first, each under
/// its own digest and with its own size, to a file that is named by its number.
pub proof fn law_layers_are_pulled_from_the_last(layers: Seq<RawDescriptor>, i: int)
    requires
        0 <= i < layers.len(),
    ensures
        layer_pulls(layers).len() == layers.len(),
        layer_pulls(layers)[layers.len() - 1 - i].index == i,
        layer_pulls(layers)[layers.len() - 1 - i].digest == layers[i].digest@,
        layer_pulls(layers)[layers.len() - 1 - i].size == layers[i].size,
        layer_pulls(layers)[layers.len() - 1 - i].file_name == "layer-"@ + number_text(
            i as nat,
            10,
        ),
        layer_pulls(layers)[layers.len() - 1 - i].label == position_label(
            i as nat,
            layers.len(),
            2,
            layers[i].digest@,
        ),
{
    let j = layers.len() - 1 - i;
    assert(layer_pulls(layers)[j] == layer_pull(layers[i], i as nat, layers.len()));
}

} // verus!
