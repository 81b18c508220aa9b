//! Cases of the merge that are easy to get wrong.

use ocirender::archive::{PaxRecord, TarEntry};
use ocirender::canonical::CanonicalTarHeader;
use ocirender::overlay::{merge_layers_into, Layer};
use std::io::{Cursor, Read};
use tar::{Archive, Builder, EntryType, Header};

// ── Building layers ─────────────────────────────────────────────────────────

struct LayerBuilder {
    inner: Builder<Vec<u8>>,
}

impl LayerBuilder {
    fn new() -> Self {
        Self { inner: Builder::new(Vec::new()) }
    }

    fn records(&mut self, path: &str, target: &str) {
        let mut pax: Vec<(&str, &[u8])> = Vec::new();
        if path.len() > 99 {
            pax.push(("path", path.as_bytes()));
        }
        if target.len() > 99 {
            pax.push(("linkpath", target.as_bytes()));
        }
        if !pax.is_empty() {
            self.inner.append_pax_extensions(pax).unwrap();
        }
    }

    fn header(path: &str, kind: EntryType, size: u64, mode: u32) -> Header {
        let mut hdr = Header::new_ustar();
        hdr.set_path(truncate(path, 99)).unwrap();
        hdr.set_entry_type(kind);
        hdr.set_size(size);
        hdr.set_mode(mode);
        hdr.set_mtime(0);
        hdr.set_uid(0);
        hdr.set_gid(0);
        hdr
    }

    fn add_file(mut self, path: &str, data: &[u8], mode: u32) -> Self {
        self.records(path, "");
        let mut hdr = Self::header(path, EntryType::Regular, data.len() as u64, mode);
        hdr.set_cksum();
        self.inner.append(&hdr, Cursor::new(data)).unwrap();
        self
    }

    fn add_dir(mut self, path: &str) -> Self {
        self.records(path, "");
        let mut hdr = Self::header(path, EntryType::Directory, 0, 0o755);
        hdr.set_cksum();
        self.inner.append(&hdr, Cursor::new(b"" as &[u8])).unwrap();
        self
    }

    fn add_link(mut self, path: &str, target: &str, kind: EntryType, mode: u32) -> Self {
        self.records(path, target);
        let mut hdr = Self::header(path, kind, 0, mode);
        hdr.set_link_name(truncate(target, 99)).ok();
        hdr.set_cksum();
        self.inner.append(&hdr, Cursor::new(b"" as &[u8])).unwrap();
        self
    }

    fn add_hardlink(self, path: &str, target: &str) -> Self {
        self.add_link(path, target, EntryType::Link, 0o644)
    }

    fn add_whiteout(self, dir: &str, name: &str) -> Self {
        let path = if dir.is_empty() {
            format!(".wh.{name}")
        } else {
            format!("{dir}/.wh.{name}")
        };
        self.add_file(&path, b"", 0o644)
    }

    fn finish(mut self) -> Vec<u8> {
        self.inner.finish().unwrap();
        self.inner.into_inner().unwrap()
    }
}

fn truncate(s: &str, max_chars: usize) -> &str {
    match s.char_indices().nth(max_chars) {
        Some((idx, _)) => &s[..idx],
        None => s,
    }
}

fn blob(bytes: Vec<u8>, index: usize) -> Layer {
    Layer { media_type: "application/vnd.oci.image.layer.v1.tar".into(), index, bytes }
}

fn merge(layers: Vec<Layer>) -> Vec<u8> {
    merge_layers_into(layers).unwrap()
}

// ── Reading archives ────────────────────────────────────────────────────────

fn entries_of(tar_bytes: &[u8]) -> Vec<TarEntry> {
    let mut archive = Archive::new(tar_bytes);
    let mut out = Vec::new();
    for entry in archive.entries().unwrap() {
        let mut entry = entry.unwrap();
        let path = entry.path_bytes().into_owned();
        let header = *entry.header().as_bytes();
        let mut pax = Vec::new();
        for record in entry.pax_extensions().unwrap().into_iter().flatten() {
            pax.push(match record {
                Ok(r) => PaxRecord::Pair {
                    key: r.key_bytes().to_vec(),
                    value: r.value_bytes().to_vec(),
                },
                Err(_) => PaxRecord::Malformed,
            });
        }
        let mut data = Vec::new();
        entry.read_to_end(&mut data).unwrap();
        out.push(TarEntry { path, header, pax, data });
    }
    out
}

fn text(bytes: &[u8]) -> String {
    String::from_utf8_lossy(bytes).into_owned()
}

fn paths_in_tar(tar_bytes: &[u8]) -> Vec<String> {
    let mut archive = Archive::new(Cursor::new(tar_bytes));
    archive
        .entries()
        .unwrap()
        .map(|e| e.unwrap().path().unwrap().to_string_lossy().into_owned())
        .collect()
}

/// The target of the link of the given type at `link_path`, by its extended
/// header record before its header field.
fn link_target(
    tar_bytes: &[u8],
    link_path: &str,
    kind: ocirender::canonical::EntryType,
) -> Option<String> {
    for entry in entries_of(tar_bytes) {
        let canonical = CanonicalTarHeader::from_entry(&entry).unwrap();
        if canonical.entry_type() == kind && text(&canonical.path()) == link_path {
            return canonical.link_name().map(|p| text(&p));
        }
    }
    None
}

fn hardlink_target_in_tar(tar_bytes: &[u8], link_path: &str) -> Option<String> {
    link_target(tar_bytes, link_path, ocirender::canonical::EntryType::Link)
}

/// A whiteout acts on older layers, not on newer ones.
#[test]
fn regress_whiteout_suppression_direction() {
    let layer0 = LayerBuilder::new()
        .add_file("usr/share/vulkan/icd.d/lvp_icd.json", b"data", 0o644)
        .finish();
    // Layer 1 whiteouts the file from layer 0.
    let layer1 = LayerBuilder::new()
        .add_whiteout("usr/share/vulkan/icd.d", "lvp_icd.json")
        .finish();

    let merged = merge(vec![blob(layer0, 0), blob(layer1, 1)]);
    let paths = paths_in_tar(&merged);
    assert!(
        !paths
            .iter()
            .any(|p| p == "usr/share/vulkan/icd.d/lvp_icd.json"),
        "whited-out file must not appear: got paths {paths:?}"
    );
}

/// A hard link target of more than a hundred bytes is taken from the extended
/// header, where it is whole.
#[test]
fn regress_long_hardlink_target_truncated() {
    // Construct a target path that exceeds 100 bytes.
    let long_dir = "a".repeat(95);
    let target = format!("{long_dir}/canonical_file");
    assert!(
        target.len() > 100,
        "test setup: target must exceed 100 bytes"
    );

    let layer0 = LayerBuilder::new()
        .add_dir(&long_dir)
        .add_file(&target, b"content", 0o644)
        .add_hardlink("alias_file", &target)
        .finish();

    let merged = merge(vec![blob(layer0, 0)]);
    let paths = paths_in_tar(&merged);

    assert!(
        paths.iter().any(|p| p == &target),
        "canonical target must be present"
    );
    assert!(
        paths.iter().any(|p| p == "alias_file"),
        "hard link alias must be present; was it silently dropped due to truncated target?"
    );

    let resolved = hardlink_target_in_tar(&merged, "alias_file");
    assert_eq!(
        resolved.as_deref(),
        Some(target.as_str()),
        "hard link target must be the full untruncated path"
    );
}

/// A long target is found in another layer too.
#[test]
fn regress_long_hardlink_target_cross_layer() {
    let long_dir = "b".repeat(60);
    let target = format!("{long_dir}/canonical_file");

    let layer0 = LayerBuilder::new()
        .add_dir(&long_dir)
        .add_file(&target, b"content", 0o644)
        .finish();
    let layer1 = LayerBuilder::new()
        .add_hardlink("alias_file", &target)
        .finish();

    let merged = merge(vec![blob(layer0, 0), blob(layer1, 1)]);
    let paths = paths_in_tar(&merged);

    assert!(
        paths.iter().any(|p| p == &target),
        "canonical target must be present"
    );
    assert!(
        paths.iter().any(|p| p == "alias_file"),
        "cross-layer hard link with long target must not be silently dropped"
    );
}

/// A hard link target may be absolute; the paths of entries are relative.
#[test]
fn regress_absolute_hardlink_target_normalized() {
    // Manually construct a layer with an absolute-path hard link target,
    // which some tar producers emit.
    let mut builder = Builder::new(Vec::new());

    let mut file_hdr = Header::new_ustar();
    file_hdr.set_path("usr/share/foo").unwrap();
    file_hdr.set_size(4);
    file_hdr.set_mode(0o644);
    file_hdr.set_mtime(0);
    file_hdr.set_uid(0);
    file_hdr.set_gid(0);
    file_hdr.set_cksum();
    builder.append(&file_hdr, Cursor::new(b"data")).unwrap();

    // Use a PAX linkpath with a leading slash — the absolute form.
    builder
        .append_pax_extensions([("linkpath", b"/usr/share/foo" as &[u8])])
        .unwrap();
    let mut link_hdr = Header::new_ustar();
    link_hdr.set_path("usr/share/bar").unwrap();
    link_hdr.set_entry_type(EntryType::Link);
    link_hdr.set_link_name("usr/share/foo").ok(); // truncated USTAR field (no leading slash here)
    link_hdr.set_size(0);
    link_hdr.set_mode(0o644);
    link_hdr.set_mtime(0);
    link_hdr.set_uid(0);
    link_hdr.set_gid(0);
    link_hdr.set_cksum();
    builder
        .append(&link_hdr, Cursor::new(b"" as &[u8]))
        .unwrap();

    builder.finish().unwrap();
    let layer0 = builder.into_inner().unwrap();

    let merged = merge(vec![blob(layer0, 0)]);
    let paths = paths_in_tar(&merged);
    assert!(
        paths.iter().any(|p| p == "usr/share/bar"),
        "hard link with absolute PAX linkpath must not be dropped after normalization"
    );
}

/// A whiteout of a directory removes what is in it.
#[test]
fn regress_simple_whiteout_suppresses_directory_children() {
    let layer0 = LayerBuilder::new()
        .add_dir("home/ubuntu")
        .add_file("home/ubuntu/.bashrc", b"data", 0o644)
        .finish();
    let layer1 = LayerBuilder::new().add_whiteout("home", "ubuntu").finish();

    let merged = merge(vec![blob(layer0, 0), blob(layer1, 1)]);
    let paths = paths_in_tar(&merged);
    assert!(
        !paths.iter().any(|p| p == "home/ubuntu"),
        "whited-out directory must not appear"
    );
    assert!(
        !paths.iter().any(|p| p.starts_with("home/ubuntu/")),
        "children of whited-out directory must not appear"
    );
}

