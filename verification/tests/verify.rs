//! Comparing trees.

use ocirender::verify::{
    mount_program, verify, verify_dirs, EntryInfo, EntryKind, Tree, VerifyError, VerifyReport,
};
use ocirender::ImageSpec;
use std::path::PathBuf;

fn file(mode: u32, content: &str) -> EntryInfo {
    EntryInfo::new(
        EntryKind::File,
        mode,
        1,
        2,
        content.len() as u64,
        None,
        Some(ocirender::digest::sha256_hex(content.as_bytes())),
    )
}

fn link(target: &str) -> EntryInfo {
    EntryInfo::new(EntryKind::Symlink, 0o777, 0, 0, 0, Some(target.as_bytes().to_vec()), None)
}

fn dir(uid: u32, gid: u32) -> EntryInfo {
    EntryInfo::new(EntryKind::Dir, 0o40755, uid, gid, 4096, None, None)
}

fn tree(entries: Vec<(&str, EntryInfo)>) -> Tree {
    let mut t = Tree::new();
    for (path, info) in entries {
        t.insert(path.as_bytes().to_vec(), info);
    }
    t
}

fn details(report: &VerifyReport) -> Vec<String> {
    report.differences.iter().map(|d| d.detail.clone()).collect()
}

#[test]
fn equal_trees_are_clean() {
    let make = || tree(vec![("a", dir(0, 0)), ("a/b", file(0o644, "x")), ("a/c", link("b"))]);
    let report = verify_dirs(&make(), &make(), false);
    assert!(report.is_clean());
    let spec = ImageSpec::Dir { path: PathBuf::from("/x") };
    assert!(verify(&spec, &make(), &make(), true).unwrap().is_clean());
    assert!(verify_dirs(&Tree::new(), &Tree::new(), false).is_clean());
}

#[test]
fn missing_paths_are_reported() {
    let g = tree(vec![("a", dir(0, 0)), ("only-g", file(0o644, ""))]);
    let r = tree(vec![("only-r", file(0o644, "")), ("a", dir(0, 0)), ("more-r", dir(0, 0))]);
    let report = verify_dirs(&g, &r, false);
    assert_eq!(report.only_in_generated, vec![b"only-g".to_vec()]);
    assert_eq!(report.only_in_reference, vec![b"only-r".to_vec(), b"more-r".to_vec()]);
    assert!(report.differences.is_empty());
    assert!(!report.is_clean());
}

#[test]
fn differences_are_described() {
    let g = tree(vec![
        ("type", dir(0, 0)),
        ("mode", file(0o100755, "x")),
        ("owner", dir(0, 5)),
        ("link", link("else where")),
        ("size", file(0o644, "long")),
        ("content", file(0o644, "abc")),
    ]);
    let r = tree(vec![
        ("type", link("x")),
        ("mode", file(0o100044, "x")),
        ("owner", dir(1000, 6)),
        ("link", link("there")),
        ("size", file(0o644, "longer")),
        ("content", file(0o644, "abd")),
    ]);
    let report = verify_dirs(&g, &r, false);
    assert_eq!(
        details(&report),
        vec![
            "type mismatch: generated=Dir reference=Symlink",
            "mode: generated=0755 reference=0044",
            "uid: generated=0 reference=1000",
            "gid: generated=5 reference=6",
            "symlink target: generated=Some(\"else where\") reference=Some(\"there\")",
            "size: generated=4 reference=6",
            "sha256 mismatch",
            "sha256 mismatch",
        ]
    );
    assert_eq!(report.differences[0].path, b"type".to_vec());
    assert_eq!(report.differences[7].path, b"content".to_vec());
    let ignoring = verify_dirs(&g, &r, true);
    assert_eq!(details(&ignoring).len(), 6);
}

#[test]
fn sizes_of_directories_do_not_count() {
    let g = tree(vec![("d", dir(0, 0))]);
    let mut bigger = dir(0, 0);
    bigger.size = 1 << 20;
    assert!(verify_dirs(&g, &tree(vec![("d", bigger)]), false).is_clean());
}

#[test]
fn targets_are_compared_as_paths() {
    let g = tree(vec![("l", link("a/b"))]);
    assert!(verify_dirs(&g, &tree(vec![("l", link("a//b/"))]), false).is_clean());
    let none = EntryInfo::new(EntryKind::Symlink, 0o777, 0, 0, 0, None, None);
    let report = verify_dirs(&g, &tree(vec![("l", none)]), false);
    assert_eq!(
        details(&report),
        vec!["symlink target: generated=Some(\"a/b\") reference=None"]
    );
}

#[test]
fn names_that_are_not_text_are_told_apart() {
    let mut g = Tree::new();
    g.insert(vec![0xff], dir(0, 0));
    let mut r = Tree::new();
    r.insert(vec![0xfe], dir(0, 0));
    let report = verify_dirs(&g, &r, false);
    assert_eq!(report.only_in_generated, vec![vec![0xff]]);
    assert_eq!(report.only_in_reference, vec![vec![0xfe]]);
}

#[test]
fn a_later_entry_replaces_an_earlier_one() {
    let twice = tree(vec![("f", file(0o644, "old")), ("f", file(0o644, "new"))]);
    assert!(verify_dirs(&twice, &tree(vec![("f", file(0o644, "new"))]), false).is_clean());
}

#[test]
fn kinds_and_formats() {
    assert_eq!(EntryKind::new(true, true, true), EntryKind::Symlink);
    assert_eq!(EntryKind::new(false, true, false), EntryKind::File);
    assert_eq!(EntryKind::new(false, false, true), EntryKind::Dir);
    assert_eq!(EntryKind::new(false, false, false), EntryKind::Other);
    assert_eq!(EntryKind::Other.name(), "Other");
    let path = PathBuf::from("/x");
    let tar = ImageSpec::Tar { path: path.clone() };
    assert_eq!(mount_program(&tar), Err(VerifyError::TarNotSupported));
    assert!(matches!(
        verify(&tar, &Tree::new(), &Tree::new(), false),
        Err(VerifyError::TarNotSupported)
    ));
    let squashfs = ImageSpec::Squashfs { path: path.clone(), binpath: None };
    assert_eq!(mount_program(&squashfs), Ok(Some("squashfuse")));
    let erofs = ImageSpec::Erofs { path: path.clone(), binpath: None };
    assert_eq!(mount_program(&erofs), Ok(Some("erofsfuse")));
    assert_eq!(mount_program(&ImageSpec::Dir { path }), Ok(None));
}

#[test]
fn ignoring_ownership_takes_out_its_lines_only() {
    let g = tree(vec![("a", dir(0, 0)), ("b", file(0o600, "x")), ("c", dir(1, 1)), ("d", dir(0, 0))]);
    let r = tree(vec![("a", dir(5, 6)), ("b", file(0o644, "y")), ("c", dir(1, 2)), ("e", dir(0, 0))]);
    let spec = ImageSpec::Dir { path: PathBuf::from("/x") };
    let strict = verify(&spec, &g, &r, false).unwrap();
    let lenient = verify(&spec, &g, &r, true).unwrap();
    let kept: Vec<String> = details(&strict)
        .into_iter()
        .filter(|d| !d.starts_with("uid: ") && !d.starts_with("gid: "))
        .collect();
    assert_eq!(details(&lenient), kept);
    assert_eq!(details(&strict).len(), kept.len() + 3);
    assert_eq!(lenient.only_in_generated, strict.only_in_generated);
    assert_eq!(lenient.only_in_reference, strict.only_in_reference);
}

#[test]
fn targets_that_are_not_text_are_told_apart() {
    let link_to = |target: &[u8]| {
        EntryInfo::new(EntryKind::Symlink, 0o777, 0, 0, 0, Some(target.to_vec()), None)
    };
    let shown = |a: &[u8], b: &[u8]| {
        let report = verify_dirs(
            &tree(vec![("l", link_to(a))]),
            &tree(vec![("l", link_to(b))]),
            false,
        );
        details(&report)
    };
    assert_eq!(
        shown(b"a\xff\"b", b"a\xfe\"b"),
        vec![
            r#"symlink target: generated=Some("a\xFF\"b") reference=Some("a\xFE\"b")"#.to_string()
        ]
    );
    // A character that breaks off, and one that is whole.
    assert_eq!(
        shown(b"\xe2\x82", "\u{20ac}\n".as_bytes()),
        vec![
            r#"symlink target: generated=Some("\xE2\x82") reference=Some("€\n")"#.to_string()
        ]
    );
    assert_eq!(
        shown(b"\xf0\x9f\x98\x80\x80", b"\xf0\x9f\x98\x80"),
        vec![
            "symlink target: generated=Some(\"\u{1f600}\\x80\") reference=Some(\"\u{1f600}\")"
                .to_string()
        ]
    );
    assert!(shown(b"\xff", b"\xff").is_empty());
}

#[test]
fn kinds_say_what_is_compared() {
    assert!(EntryKind::Symlink.wants_target() && !EntryKind::Symlink.wants_hash());
    assert!(EntryKind::File.wants_hash() && !EntryKind::File.wants_target());
    assert!(!EntryKind::Dir.wants_hash() && !EntryKind::Other.wants_target());
}
