//! What goes into a conversion and what it reports.

use std::path::PathBuf;
use vstd::prelude::*;

verus! {

/// `std::path::PathBuf` is carried as it came.
#[verifier::external_type_specification]
#[verifier::external_body]
pub struct ExPathBuf(std::path::PathBuf);

/// Format, location and configuration of an image.
///
/// Used both as the target of a conversion and as the source of a verification.
#[derive(Debug)]
pub enum ImageSpec {
    /// A squashfs filesystem image. `binpath` overrides where `mksquashfs` is
    /// found.
    Squashfs { path: PathBuf, binpath: Option<PathBuf> },
    /// An erofs filesystem image. `binpath` overrides where `mkfs.erofs` is
    /// found.
    Erofs { path: PathBuf, binpath: Option<PathBuf> },
    /// A plain tar archive.
    Tar { path: PathBuf },
    /// A directory with the extracted filesystem tree.
    Dir { path: PathBuf },
}

impl ImageSpec {
    /// The path of the image.
    pub open spec fn location(self) -> PathBuf {
        match self {
            ImageSpec::Squashfs { path, .. } => path,
            ImageSpec::Erofs { path, .. } => path,
            ImageSpec::Tar { path } => path,
            ImageSpec::Dir { path } => path,
        }
    }

    /// The path that this image is at, whatever its format.
    pub fn path(&self) -> (r: &PathBuf)
        ensures
            *r == self.location(),
            match self {
                ImageSpec::Squashfs { path, .. } => *r == *path,
                ImageSpec::Erofs { path, .. } => *r == *path,
                ImageSpec::Tar { path } => *r == *path,
                ImageSpec::Dir { path } => *r == *path,
            },
    {
        match self {
            ImageSpec::Squashfs { path, .. } => path,
            ImageSpec::Erofs { path, .. } => path,
            ImageSpec::Tar { path } => path,
            ImageSpec::Dir { path } => path,
        }
    }
}

/// Progress events emitted by the merge as layers are processed.
#[derive(Clone, Copy, Debug, PartialEq, Eq, Structural)]
pub enum PackerProgress {
    /// The layer at this index is being processed.
    LayerStarted(usize),
    /// The layer at this index has been processed.
    LayerFinished(usize),
}

/// What the manifest says of a layer.
#[derive(Debug)]
pub struct LayerMeta {
    /// The position in the manifest. Layer 0 is the oldest.
    pub index: usize,
    /// The media type of the blob.
    pub media_type: String,
}

/// The values of a [`LayerMeta`].
#[verifier::ext_equal]
pub struct MetaView {
    pub index: nat,
    pub media_type: Seq<char>,
}

impl View for LayerMeta {
    type V = MetaView;

    open spec fn view(&self) -> MetaView {
        MetaView { index: self.index as nat, media_type: self.media_type@ }
    }
}

impl Clone for LayerMeta {
    fn clone(&self) -> (r: Self)
        ensures
            r@ == self@,
    {
        LayerMeta { index: self.index, media_type: self.media_type.clone() }
    }
}

/// The values of layer metadata.
pub open spec fn meta_views(v: Seq<LayerMeta>) -> Seq<MetaView> {
    Seq::new(v.len(), |i: int| v[i]@)
}

/// The media type of the layer at `index`, when its blob is there. `None` where
/// there is no such layer.
pub fn ready_layer(metas: &Vec<LayerMeta>, index: usize) -> (r: Option<String>)
    ensures
        match r {
            Some(t) => index < metas@.len() && t@ == metas@[index as int].media_type@,
            None => index >= metas@.len(),
        },
{
    if index < metas.len() {
        Some(metas[index].media_type.clone())
    } else {
        None
    }
}

} // verus!
