//! Merging OCI image layers into one root filesystem.

pub mod archive;
pub mod canonical;
pub mod digest;
pub mod image;
pub mod laws;
pub mod layers;
pub mod model;
pub mod order;
pub mod overlay;
pub mod packer;
pub mod path;
pub mod registry;
pub mod resequence;
pub mod semantics;
pub mod sink;
pub mod text;
pub mod tracker;
pub mod verify;

pub use packer::{ImageSpec, LayerMeta, PackerProgress};
