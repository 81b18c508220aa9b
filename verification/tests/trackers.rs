//! Paths, trackers and headers.

use ocirender::archive::{PaxRecord, TarEntry};
use ocirender::canonical::{content_padding, CanonicalTarHeader, EntryType, HeaderError};
use ocirender::path::{
    child_path, is_path_less, join_path, key_of, normal_components, normalize_path, path_parts,
};
use ocirender::resequence::Resequencer;
use ocirender::tracker::{EmittedPathTracker, HardLinkTracker, WhiteoutTracker};
use std::path::Path;

// ── Paths ───────────────────────────────────────────────────────────────────

#[test]
fn paths_are_normalised() {
    assert_eq!(normalize_path("./usr/bin/cat"), "usr/bin/cat");
    assert_eq!(normalize_path("././/usr"), "usr");
    assert_eq!(normalize_path("/usr"), "usr");
    assert_eq!(normalize_path("///"), "");
    assert_eq!(normalize_path("."), ".");
    assert_eq!(normalize_path(".//./a"), "./a");
    assert_eq!(normalize_path("a/./b/"), "a/./b/");
}

#[test]
fn normalising_keeps_names() {
    for p in ["./a/b", "././/a/./b/", "/a//b", ".//./a/b", "a/b"] {
        assert_eq!(normal_components(&normalize_path(p)), vec!["a", "b"]);
        assert_eq!(normal_components(p), vec!["a", "b"]);
    }
}

#[test]
fn keys_identify_paths_as_std_does() {
    let paths = [
        "", ".", "..", "/", "a", "./a", "a/", "a//b", "a/./b", "a/b", "/a/b", "a/../b", "b", "a.b",
        "./.", "../a", "é/x", "a/.",
    ];
    for p in paths {
        for q in paths {
            assert_eq!(key_of(p) == key_of(q), Path::new(p) == Path::new(q), "{p:?} {q:?}");
            assert_eq!(is_path_less(p, q), Path::new(p) < Path::new(q), "{p:?} {q:?}");
        }
    }
}

#[test]
fn components() {
    assert_eq!(path_parts("./a//../b/."), vec![".", "a", "..", "b"]);
    assert_eq!(normal_components("./a//../b/."), vec!["a", "b"]);
    assert!(normal_components("..").is_empty());
    assert_eq!(child_path(&vec!["a".into(), "b".into()], "c"), "a/b/c");
    assert_eq!(child_path(&vec![], "c"), "c");
    assert_eq!(join_path("a", "b"), "a/b");
    assert_eq!(join_path("a/", "b"), "a/b");
    assert_eq!(join_path("a", "/b"), "/b");
    assert_eq!(join_path("", "b"), "b");
}

// ── Whiteouts ───────────────────────────────────────────────────────────────

#[test]
fn whiteouts_act_on_older_layers_and_below() {
    let mut w = WhiteoutTracker::new();
    w.insert_simple("a/b", 3);
    assert!(w.is_suppressed("a/b", 2));
    assert!(w.is_suppressed("a/b/c", 0));
    assert!(w.is_suppressed("./a//b/", 2));
    assert!(!w.is_suppressed("a/b", 3));
    assert!(!w.is_suppressed("a/b", 4));
    assert!(!w.is_suppressed("a", 0));
    assert!(!w.is_suppressed("a/bc", 0));
    w.insert_opaque("d", 2);
    assert!(w.is_suppressed("d/x/y", 1));
    assert!(!w.is_suppressed("d/x/y", 2));
}

#[test]
fn any_prefix_counts_and_the_newest_whiteout_stays() {
    let mut w = WhiteoutTracker::new();
    w.insert_simple("a/b", 3);
    w.insert_opaque("a", 1);
    // The whiteout of the parent in layer 1 does not undo that of layer 3.
    assert!(w.is_suppressed("a/b", 1));
    assert!(w.is_suppressed("a/b", 2));
    assert!(!w.is_suppressed("a/c", 1));
    assert!(w.is_suppressed("a/c", 0));
    w.insert_simple("a/b", 1);
    assert!(w.is_suppressed("a/b", 2));
    w.insert_opaque("", 5);
    assert!(w.is_suppressed("z", 4));
    assert!(w.is_suppressed("", 4));
}

#[test]
fn shadows_hide_only_what_is_below() {
    let mut w = WhiteoutTracker::new();
    w.insert_shadow("p", 2);
    assert!(!w.is_suppressed("p", 0));
    assert!(w.is_suppressed("p/q", 1));
    assert!(!w.is_suppressed("p/q", 2));
    w.insert_shadow("..", 9);
    assert!(!w.is_suppressed("other", 0));
}

// ── Emitted paths and hard links ────────────────────────────────────────────

#[test]
fn emitted_paths_are_known_in_any_spelling() {
    let mut e = EmittedPathTracker::new();
    assert!(!e.contains("a/b"));
    e.insert("a/b");
    assert!(e.contains("a/b"));
    assert!(e.contains("a//b/"));
    assert!(!e.contains("a"));
    assert!(!e.contains("./a/b"));
}

fn header(mark: u8) -> CanonicalTarHeader {
    let mut block = [0u8; 512];
    block[0] = mark;
    CanonicalTarHeader { header: block, pax_extensions: vec![] }
}

#[test]
fn links_come_out_by_layer_and_in_order() {
    let mut t = HardLinkTracker::new();
    for (link, layer) in [("c", 2), ("a", 0), ("d", 2), ("b", 1)] {
        t.record(link.to_string(), "target".to_string(), layer, header(b'x'));
    }
    t.record_promotion("q".into(), "t".into(), 1);
    t.record_promotion("p".into(), "t".into(), 0);
    let (deferred, promotions) = t.drain_sorted();
    let order: Vec<&str> = deferred.iter().map(|l| l.link_path.as_str()).collect();
    assert_eq!(order, vec!["a", "b", "c", "d"]);
    let order: Vec<&str> = promotions.iter().map(|p| p.link_path.as_str()).collect();
    assert_eq!(order, vec!["p", "q"]);
}

#[test]
fn promotions_get_content_from_either_side() {
    let mut t = HardLinkTracker::new();
    t.record_promotion("waiting".into(), "t".into(), 3);
    t.record_promotion("other".into(), "u".into(), 3);
    t.note_suppressed_file("./t".into(), header(b'0'), b"zero".to_vec());
    t.note_suppressed_file("t/".into(), header(b'1'), b"first".to_vec());
    t.note_suppressed_file("t".into(), header(b'2'), b"second".to_vec());
    t.record_promotion("same-layer".into(), "t".into(), 2);
    t.end_layer();
    t.record_promotion("next-layer".into(), "t".into(), 1);
    let (_, promotions) = t.drain_sorted();
    let data: Vec<(&str, Option<&[u8]>)> = promotions
        .iter()
        .map(|p| (p.link_path.as_str(), p.file_data.as_ref().map(|f| f.1.as_slice())))
        .collect();
    assert_eq!(
        data,
        vec![
            ("next-layer", None),
            ("same-layer", Some(b"second".as_slice())),
            ("waiting", Some(b"first".as_slice())),
            ("other", None),
        ]
    );
}

// ── Order of arrival ────────────────────────────────────────────────────────

#[test]
fn items_are_handed_on_from_the_highest_index_down() {
    let mut q: Resequencer<&str> = Resequencer::new(3);
    assert!(q.pop().is_none());
    q.push(0, "zero");
    assert!(q.pop().is_none());
    q.push(2, "two");
    assert_eq!(q.pop(), Some("two"));
    assert!(q.pop().is_none());
    q.push(1, "one");
    assert_eq!(q.pop(), Some("one"));
    assert_eq!(q.pop(), Some("zero"));
    assert!(q.pop().is_none());
}

// ── Headers ─────────────────────────────────────────────────────────────────

fn entry(pax: Vec<PaxRecord>) -> TarEntry {
    let mut h = tar::Header::new_ustar();
    h.set_path("dir/name").unwrap();
    h.set_link_name("target").unwrap();
    h.set_mode(0o640);
    h.set_uid(7);
    h.set_gid(8);
    h.set_mtime(9);
    h.set_size(5);
    h.set_entry_type(tar::EntryType::Symlink);
    h.set_cksum();
    TarEntry { path: b"dir/name".to_vec(), header: *h.as_bytes(), pax, data: vec![] }
}

fn pair(key: &[u8], value: &[u8]) -> PaxRecord {
    PaxRecord::Pair { key: key.to_vec(), value: value.to_vec() }
}

#[test]
fn records_come_before_fields() {
    let plain = CanonicalTarHeader::from_entry(&entry(vec![])).unwrap();
    assert_eq!(plain.path(), b"dir/name");
    assert_eq!(plain.link_name().unwrap(), b"target");
    assert_eq!(plain.entry_type(), EntryType::Symlink);
    let e = entry(vec![pair(b"path", b"p\xff"), pair(b"linkpath", b"l"), pair(b"path", b"second")]);
    let c = CanonicalTarHeader::from_entry(&e).unwrap();
    assert_eq!(c.path(), b"p\xff");
    assert_eq!(c.link_name().unwrap(), b"l");
}

#[test]
fn prefix_fields_and_missing_targets() {
    let mut h = tar::Header::new_ustar();
    let long = format!("{}/{}", "d".repeat(90), "f".repeat(50));
    h.set_path(&long).unwrap();
    let c = CanonicalTarHeader { header: *h.as_bytes(), pax_extensions: vec![] };
    assert_eq!(c.path(), long.as_bytes());
    assert!(c.link_name().is_none());
    assert_eq!(c.entry_type(), EntryType::Regular);
    // The prefix field counts in the USTAR format only.
    let mut gnu = *h.as_bytes();
    gnu[257..265].copy_from_slice(b"ustar  \0");
    let c = CanonicalTarHeader { header: gnu, pax_extensions: vec![] };
    assert_eq!(c.path(), "f".repeat(50).as_bytes());
}

#[test]
fn unusable_records_are_refused() {
    assert!(matches!(
        CanonicalTarHeader::from_entry(&entry(vec![pair(b"a", b""), PaxRecord::Malformed])),
        Err(HeaderError::MalformedPax)
    ));
    assert!(matches!(
        CanonicalTarHeader::from_entry(&entry(vec![pair(b"\xff", b""), PaxRecord::Malformed])),
        Err(HeaderError::PaxKeyNotUtf8)
    ));
}

#[test]
fn regular_headers_keep_metadata() {
    let e = entry(vec![
        pair(b"path", b"x"),
        pair(b"mtime", b"1.5"),
        pair(b"GNU.sparse.map", b"0"),
        pair(b"linkpath", b"y"),
        pair(b"SCHILY.xattr.user.a", b"\x00\xff"),
    ]);
    let r = CanonicalTarHeader::from_entry(&e).unwrap().clone_as_regular();
    assert_eq!(r.entry_type(), EntryType::Regular);
    let keys: Vec<&str> = r.pax_extensions.iter().map(|p| p.0.as_str()).collect();
    assert_eq!(keys, vec!["mtime", "SCHILY.xattr.user.a"]);
    assert_eq!(r.pax_extensions[1].1, b"\x00\xff");
    let h = tar::Header::from_byte_slice(&r.header);
    assert_eq!((h.mode().unwrap(), h.uid().unwrap(), h.gid().unwrap()), (0o640, 7, 8));
}

#[test]
fn types_of_entries_are_those_of_the_archive() {
    for byte in 0..=255u8 {
        let want = format!("{:?}", tar::EntryType::new(byte));
        let got = format!("{:?}", EntryType::new(byte));
        let same = match (tar::EntryType::new(byte).as_byte(), EntryType::new(byte)) {
            (b, EntryType::Other(o)) => b == o,
            _ => want == got,
        };
        assert!(same, "{byte}: {want} {got}");
    }
}

fn one_entry(bytes: &[u8]) -> (Vec<u8>, Vec<u8>, tar::Header) {
    let mut whole = bytes.to_vec();
    whole.extend_from_slice(&[0; 1024]);
    let mut archive = tar::Archive::new(&whole[..]);
    let mut entries = archive.entries().unwrap();
    let e = entries.next().unwrap().unwrap();
    let found = (
        e.path_bytes().into_owned(),
        e.link_name_bytes().unwrap().into_owned(),
        e.header().clone(),
    );
    assert!(entries.next().is_none());
    found
}

#[test]
fn hard_links_are_written_in_full() {
    let base = CanonicalTarHeader::from_entry(&entry(vec![pair(b"mtime", b"1")])).unwrap();
    for (link, target) in [(5, 7), (99, 100), (101, 100), (99, 101), (250, 300)] {
        let (link, target) = ("l".repeat(link), "t".repeat(target));
        let mut out = b"before".to_vec();
        base.write_hardlink_to_tar(&link, &target, &mut out).unwrap();
        assert_eq!(&out[..6], b"before");
        let (path, name, header) = one_entry(&out[6..]);
        assert_eq!(path, link.as_bytes());
        assert_eq!(name, target.as_bytes());
        assert_eq!(header.entry_type(), tar::EntryType::Link);
        assert_eq!(header.size().unwrap(), 0);
        assert_eq!((header.mode().unwrap(), header.uid().unwrap()), (0o640, 7));
        assert_eq!((header.gid().unwrap(), header.mtime().unwrap()), (8, 9));
    }
}

#[test]
fn entries_are_written_with_their_content() {
    let base = CanonicalTarHeader::from_entry(&entry(vec![pair(b"mtime", b"1")])).unwrap();
    let long = "p".repeat(130);
    let mut out = Vec::new();
    base.write_to_tar(&long, b"hello", &mut out).unwrap();
    let (path, name, _) = one_entry(&out);
    assert_eq!(path, long.as_bytes());
    assert_eq!(name, b"target");
    // The same bytes come from writing the entry, its content and its padding
    // one after the other.
    let mut pieces = Vec::new();
    base.write_to_tar(&long, b"", &mut pieces).unwrap();
    pieces.extend_from_slice(b"hello");
    pieces.extend_from_slice(&content_padding(5));
    assert_eq!(pieces, out);
    let mut refused = b"kept".to_vec();
    assert!(base.write_to_tar("a/../b", b"", &mut refused).is_err());
    assert_eq!(refused, b"kept");
    assert_eq!(content_padding(0).len(), 0);
    assert_eq!(content_padding(512).len(), 0);
    assert_eq!(content_padding(513).len(), 511);
}
