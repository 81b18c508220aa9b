//! Layer blob decompression.
//!
//! [`layer_compression`] selects the decompressor from a layer's media type and
//! [`open_layer`] applies it.

use crate::text::{copy_bytes, ends_with, same_text};
use vstd::prelude::*;
use vstd::string::*;

verus! {

/// How a layer blob is compressed.
#[derive(Clone, Copy, Debug, PartialEq, Eq, Structural)]
pub enum Compression {
    Gzip,
    Zstd,
    Bzip2,
    Xz,
    Plain,
}

/// The compression that a media type stands for, if it is a known one.
pub open spec fn compression_of(media_type: Seq<char>) -> Option<Compression> {
    if "+gzip"@.is_suffix_of(media_type) || media_type
        == "application/vnd.docker.image.rootfs.diff.tar.gzip"@ {
        Some(Compression::Gzip)
    } else if "+zstd"@.is_suffix_of(media_type) {
        Some(Compression::Zstd)
    } else if "+bzip2"@.is_suffix_of(media_type) {
        Some(Compression::Bzip2)
    } else if "+xz"@.is_suffix_of(media_type) || "+lzma"@.is_suffix_of(media_type) {
        Some(Compression::Xz)
    } else if media_type == "application/vnd.oci.image.layer.v1.tar"@ {
        Some(Compression::Plain)
    } else {
        None
    }
}

/// The compression of a layer with the given media type. `None` where the media
/// type is not a recognised format.
///
/// The suffix of an OCI layer media type names the compression. The Docker
/// media type of a gzip layer is accepted too.
pub fn layer_compression(media_type: &str) -> (r: Option<Compression>)
    ensures
        r == compression_of(media_type@),
        r is None <==> !named_compression(media_type@),
{
    proof {
        law_media_type_names_the_compression(media_type@);
    }
    if ends_with(media_type, "+gzip") || same_text(
        media_type,
        "application/vnd.docker.image.rootfs.diff.tar.gzip",
    ) {
        Some(Compression::Gzip)
    } else if ends_with(media_type, "+zstd") {
        Some(Compression::Zstd)
    } else if ends_with(media_type, "+bzip2") {
        Some(Compression::Bzip2)
    } else if ends_with(media_type, "+xz") || ends_with(media_type, "+lzma") {
        Some(Compression::Xz)
    } else if same_text(media_type, "application/vnd.oci.image.layer.v1.tar") {
        Some(Compression::Plain)
    } else {
        None
    }
}

/// What a decompressor yields of a blob.
#[verifier::ext_equal]
pub struct DecodedView {
    /// The content up to its end, or up to where it is damaged.
    pub bytes: Seq<u8>,
    /// Whether the end was reached.
    pub complete: bool,
}

/// What `flate2::read::GzDecoder` yields of a blob, byte by byte.
pub uninterp spec fn gzip_content(blob: Seq<u8>) -> DecodedView;

/// What `zstd::stream::read::Decoder` yields of a blob, byte by byte.
pub uninterp spec fn zstd_content(blob: Seq<u8>) -> DecodedView;

/// What `bzip2::read::BzDecoder` yields of a blob, byte by byte.
pub uninterp spec fn bzip2_content(blob: Seq<u8>) -> DecodedView;

/// What `xz2::read::XzDecoder` yields of a blob, byte by byte.
pub uninterp spec fn xz_content(blob: Seq<u8>) -> DecodedView;

/// Reads `flate2::read::GzDecoder` byte by byte, so that no buffer size counts, and puts
/// what it yields behind `out`, until the end or the first failure. Claims that
/// the outcome depends on the blob alone.
#[verifier::external_body]
fn decode_gzip(blob: &[u8], out: &mut Vec<u8>) -> (r: Result<(), std::io::Error>)
    ensures
        final(out)@ == old(out)@ + gzip_content(blob@).bytes,
        r is Ok <==> gzip_content(blob@).complete,
{
    for byte in std::io::Read::bytes(flate2::read::GzDecoder::new(blob)) {
        out.push(byte?);
    }
    Ok(())
}

/// Reads `zstd::stream::read::Decoder` byte by byte, so that no buffer size counts, and puts
/// what it yields behind `out`, until the end or the first failure. Claims that
/// the outcome depends on the blob alone.
#[verifier::external_body]
fn decode_zstd(blob: &[u8], out: &mut Vec<u8>) -> (r: Result<(), std::io::Error>)
    ensures
        final(out)@ == old(out)@ + zstd_content(blob@).bytes,
        r is Ok <==> zstd_content(blob@).complete,
{
    for byte in std::io::Read::bytes(zstd::stream::read::Decoder::new(blob)?) {
        out.push(byte?);
    }
    Ok(())
}

/// Reads `bzip2::read::BzDecoder` byte by byte, so that no buffer size counts, and puts
/// what it yields behind `out`, until the end or the first failure. Claims that
/// the outcome depends on the blob alone.
#[verifier::external_body]
fn decode_bzip2(blob: &[u8], out: &mut Vec<u8>) -> (r: Result<(), std::io::Error>)
    ensures
        final(out)@ == old(out)@ + bzip2_content(blob@).bytes,
        r is Ok <==> bzip2_content(blob@).complete,
{
    for byte in std::io::Read::bytes(bzip2::read::BzDecoder::new(blob)) {
        out.push(byte?);
    }
    Ok(())
}

/// Reads `xz2::read::XzDecoder` byte by byte, so that no buffer size counts, and puts
/// what it yields behind `out`, until the end or the first failure. Claims that
/// the outcome depends on the blob alone.
#[verifier::external_body]
fn decode_xz(blob: &[u8], out: &mut Vec<u8>) -> (r: Result<(), std::io::Error>)
    ensures
        final(out)@ == old(out)@ + xz_content(blob@).bytes,
        r is Ok <==> xz_content(blob@).complete,
{
    for byte in std::io::Read::bytes(xz2::read::XzDecoder::new(blob)) {
        out.push(byte?);
    }
    Ok(())
}

/// What a blob under a compression yields.
pub open spec fn decoded(blob: Seq<u8>, compression: Compression) -> DecodedView {
    match compression {
        Compression::Gzip => gzip_content(blob),
        Compression::Zstd => zstd_content(blob),
        Compression::Bzip2 => bzip2_content(blob),
        Compression::Xz => xz_content(blob),
        Compression::Plain => DecodedView { bytes: blob, complete: true },
    }
}

/// Why a layer cannot be opened.
#[derive(Debug, Clone, Copy, PartialEq, Eq, Structural)]
pub enum LayerError {
    /// The media type is not a recognised format.
    UnsupportedMediaType,
}

/// What an opened layer yields.
#[derive(Debug)]
pub struct LayerContent {
    /// The content up to its end, or up to where it is damaged.
    pub bytes: Vec<u8>,
    /// Why the end was not reached.
    pub damage: Option<std::io::Error>,
}

impl View for LayerContent {
    type V = DecodedView;

    open spec fn view(&self) -> DecodedView {
        DecodedView { bytes: self.bytes@, complete: self.damage is None }
    }
}

/// Open a layer blob and take out its tar archive.
///
/// The decompressor is selected from `media_type`. Every recognised media type
/// can be opened. A damaged blob yields what is before the damage, which matters
/// only where the archive is not at its end by then.
pub fn open_layer(blob: &[u8], media_type: &str) -> (r: Result<LayerContent, LayerError>)
    ensures
        match r {
            Ok(content) => compression_of(media_type@) is Some && content@ == decoded(
                blob@,
                compression_of(media_type@)->Some_0,
            ),
            Err(e) => compression_of(media_type@) is None && e == LayerError::UnsupportedMediaType,
        },
        r is Ok <==> named_compression(media_type@),
        "+gzip"@.is_suffix_of(media_type@) || media_type@
            == "application/vnd.docker.image.rootfs.diff.tar.gzip"@ ==> r->Ok_0@ == gzip_content(
            blob@,
        ),
        "+zstd"@.is_suffix_of(media_type@) ==> r->Ok_0@ == zstd_content(blob@),
        "+bzip2"@.is_suffix_of(media_type@) ==> r->Ok_0@ == bzip2_content(blob@),
        "+xz"@.is_suffix_of(media_type@) || "+lzma"@.is_suffix_of(media_type@) ==> r->Ok_0@
            == xz_content(blob@),
        media_type@ == "application/vnd.oci.image.layer.v1.tar"@ ==> r->Ok_0.bytes@ == blob@
            && r->Ok_0.damage is None,
{
    proof {
        law_media_type_names_the_compression(media_type@);
    }
    let mut bytes: Vec<u8> = Vec::new();
    let outcome = match layer_compression(media_type) {
        None => return Err(LayerError::UnsupportedMediaType),
        Some(Compression::Gzip) => decode_gzip(blob, &mut bytes),
        Some(Compression::Zstd) => decode_zstd(blob, &mut bytes),
        Some(Compression::Bzip2) => decode_bzip2(blob, &mut bytes),
        Some(Compression::Xz) => decode_xz(blob, &mut bytes),
        Some(Compression::Plain) => {
            bytes = copy_bytes(blob);
            Ok(())
        },
    };
    let content = LayerContent { bytes, damage: outcome.err() };
    assert(content@ =~= decoded(blob@, compression_of(media_type@)->Some_0));
    Ok(content)
}

// ── Laws ────────────────────────────────────────────────────────────────────

/// Whether a media type is one that names a compression, or none.
pub open spec fn named_compression(media_type: Seq<char>) -> bool {
    ||| "+gzip"@.is_suffix_of(media_type)
    ||| "+zstd"@.is_suffix_of(media_type)
    ||| "+bzip2"@.is_suffix_of(media_type)
    ||| "+xz"@.is_suffix_of(media_type)
    ||| "+lzma"@.is_suffix_of(media_type)
    ||| media_type == "application/vnd.docker.image.rootfs.diff.tar.gzip"@
    ||| media_type == "application/vnd.oci.image.layer.v1.tar"@
}

/// The suffix of a media type names the compression; the media types of Docker's
/// gzip layers and of plain archives are known as a whole, and no other is.
pub proof fn law_media_type_names_the_compression(m: Seq<char>)
    ensures
        "+gzip"@.is_suffix_of(m) ==> compression_of(m) == Some(Compression::Gzip),
        "+zstd"@.is_suffix_of(m) ==> compression_of(m) == Some(Compression::Zstd),
        "+bzip2"@.is_suffix_of(m) ==> compression_of(m) == Some(Compression::Bzip2),
        "+xz"@.is_suffix_of(m) ==> compression_of(m) == Some(Compression::Xz),
        "+lzma"@.is_suffix_of(m) ==> compression_of(m) == Some(Compression::Xz),
        m == "application/vnd.docker.image.rootfs.diff.tar.gzip"@ ==> compression_of(m) == Some(
            Compression::Gzip,
        ),
        m == "application/vnd.oci.image.layer.v1.tar"@ ==> compression_of(m) == Some(
            Compression::Plain,
        ),
        compression_of(m) is Some <==> named_compression(m),
{
    reveal_strlit("+gzip");
    reveal_strlit("+zstd");
    reveal_strlit("+bzip2");
    reveal_strlit("+xz");
    reveal_strlit("+lzma");
    reveal_strlit("application/vnd.docker.image.rootfs.diff.tar.gzip");
    reveal_strlit("application/vnd.oci.image.layer.v1.tar");
    lemma_suffix_ends("+gzip"@, m);
    lemma_suffix_ends("+zstd"@, m);
    lemma_suffix_ends("+bzip2"@, m);
    lemma_suffix_ends("+xz"@, m);
    lemma_suffix_ends("+lzma"@, m);
}

proof fn lemma_suffix_ends(s: Seq<char>, m: Seq<char>)
    requires
        s.len() > 0,
    ensures
        s.is_suffix_of(m) ==> m.last() == s.last(),
{
    if s.is_suffix_of(m) {
        assert(m.subrange(m.len() - s.len(), m.len() as int)[s.len() - 1] == m.last());
    }
}

/// What is compressed is opened by the decompressor of its kind, and what is not
/// is left as it is.
pub proof fn law_each_compression_has_its_decompressor(blob: Seq<u8>)
    ensures
        decoded(blob, Compression::Gzip) == gzip_content(blob),
        decoded(blob, Compression::Zstd) == zstd_content(blob),
        decoded(blob, Compression::Bzip2) == bzip2_content(blob),
        decoded(blob, Compression::Xz) == xz_content(blob),
        decoded(blob, Compression::Plain) == (DecodedView { bytes: blob, complete: true }),
{
}

} // verus!
