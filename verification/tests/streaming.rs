//! Merging layers as they arrive, and what makes a merge fail.

use ocirender::archive::{PaxRecord, TarEntry};
use ocirender::canonical::HeaderError;
use ocirender::layers::LayerError;
use ocirender::overlay::{
    archive_trailer, merge_layers_into, merge_layers_into_streaming, Admission, Arrival, Emission,
    Layer, LayerMerger, MergeError,
};
use ocirender::PackerProgress;
use std::io::{Read, Write};

const TAR: &str = "application/vnd.oci.image.layer.v1.tar";

/// An archive with the given entries: path, type, link target, content.
fn archive(entries: &[(&str, tar::EntryType, &str, &[u8])]) -> Vec<u8> {
    let mut b = tar::Builder::new(Vec::new());
    for (path, kind, target, data) in entries {
        let mut h = tar::Header::new_ustar();
        h.set_path(path).unwrap();
        h.set_entry_type(*kind);
        if !target.is_empty() {
            h.set_link_name(target).unwrap();
        }
        h.set_size(data.len() as u64);
        h.set_mode(0o644);
        h.set_cksum();
        b.append(&h, *data).unwrap();
    }
    b.into_inner().unwrap()
}

fn file<'a>(path: &'a str, data: &'a [u8]) -> (&'a str, tar::EntryType, &'a str, &'a [u8]) {
    (path, tar::EntryType::Regular, "", data)
}

fn hardlink<'a>(path: &'a str, target: &'a str) -> (&'a str, tar::EntryType, &'a str, &'a [u8]) {
    (path, tar::EntryType::Link, target, b"")
}

fn layer(index: usize, bytes: Vec<u8>) -> Layer {
    Layer { media_type: TAR.to_string(), index, bytes }
}

fn three_layers() -> Vec<Layer> {
    vec![
        layer(0, archive(&[file("a", b"old"), file("b", b"base"), file("gone", b"g")])),
        layer(1, archive(&[hardlink("alias", "gone"), file("c", b"mid")])),
        layer(2, archive(&[file("a", b"new"), file(".wh.gone", b""), hardlink("l", "b")])),
    ]
}

fn listing(archive: &[u8]) -> Vec<(String, tar::EntryType)> {
    tar::Archive::new(archive)
        .entries()
        .unwrap()
        .map(|e| {
            let e = e.unwrap();
            (e.path().unwrap().to_string_lossy().into_owned(), e.header().entry_type())
        })
        .collect()
}

#[test]
fn output_is_in_merge_order() {
    let merged = merge_layers_into(three_layers()).unwrap();
    let regular = tar::EntryType::Regular;
    assert_eq!(
        listing(&merged),
        vec![
            ("a".to_string(), regular),
            ("c".to_string(), regular),
            ("b".to_string(), regular),
            ("alias".to_string(), regular),
            ("l".to_string(), tar::EntryType::Link),
        ]
    );
    assert_eq!(merged.len() % 512, 0);
    assert!(merged.ends_with(&archive_trailer().unwrap()));
}

fn contents(archive: &[u8]) -> Vec<(String, String, String)> {
    let mut found = Vec::new();
    for entry in tar::Archive::new(archive).entries().unwrap() {
        let mut entry = entry.unwrap();
        let path = entry.path().unwrap().to_string_lossy().into_owned();
        let link = entry.link_name().unwrap().map(|l| l.to_string_lossy().into_owned());
        let mut data = String::new();
        entry.read_to_string(&mut data).unwrap();
        found.push((path, link.unwrap_or_default(), data));
    }
    found
}

fn found(path: &str, link: &str, data: &str) -> (String, String, String) {
    (path.to_string(), link.to_string(), data.to_string())
}

#[test]
fn a_newer_hard_link_hides_an_older_file() {
    let layers = vec![
        layer(0, archive(&[file("p", b"old"), file("t", b"content")])),
        layer(1, archive(&[hardlink("p", "t")])),
    ];
    assert_eq!(
        contents(&merge_layers_into(layers).unwrap()),
        vec![found("t", "", "content"), found("p", "t", "")]
    );
    // An older hard link gives way to a newer one.
    let layers = vec![
        layer(0, archive(&[file("t", b"1"), file("u", b"2"), hardlink("p", "t")])),
        layer(1, archive(&[hardlink("p", "u")])),
    ];
    assert_eq!(
        contents(&merge_layers_into(layers).unwrap()),
        vec![found("t", "", "1"), found("u", "", "2"), found("p", "u", "")]
    );
}

#[test]
fn a_promoted_link_hides_an_older_file() {
    let layers = vec![
        layer(0, archive(&[file("t", b"content"), file("p", b"old")])),
        layer(1, archive(&[hardlink("p", "t")])),
        layer(2, archive(&[file(".wh.t", b"")])),
    ];
    assert_eq!(
        contents(&merge_layers_into(layers).unwrap()),
        vec![found("p", "", "content")]
    );
}

#[test]
fn a_link_to_a_later_link_is_written() {
    // The older link's target is by now a hard link of a newer layer.
    let layers = vec![
        layer(0, archive(&[file("p", b"old"), hardlink("q", "p")])),
        layer(1, archive(&[file("z", b"new"), hardlink("p", "z")])),
    ];
    assert_eq!(
        contents(&merge_layers_into(layers).unwrap()),
        vec![found("z", "", "new"), found("p", "z", ""), found("q", "p", "")]
    );
    // Links without a file at their end are dropped.
    let layers = vec![layer(0, archive(&[hardlink("a", "b"), hardlink("b", "a")]))];
    assert!(contents(&merge_layers_into(layers).unwrap()).is_empty());
}

#[test]
fn no_path_is_written_twice() {
    let layers = vec![
        layer(0, archive(&[file("x", b"0"), file("y", b"0"), hardlink("z", "x"), file("g", b"g")])),
        layer(1, archive(&[hardlink("y", "x"), file("z", b"1"), hardlink("x", "g")])),
        layer(2, archive(&[file(".wh.g", b""), file("x/", b""), hardlink("w", "z")])),
    ];
    let mut paths: Vec<String> =
        contents(&merge_layers_into(layers).unwrap()).into_iter().map(|e| e.0).collect();
    let written = paths.len();
    paths.sort();
    paths.dedup();
    assert_eq!(paths.len(), written);
}

#[test]
fn damage_behind_the_archive_does_not_matter() {
    let plain = archive(&[file("x", b"content")]);
    let whole = merge_layers_into(vec![layer(0, plain.clone())]).unwrap();
    let merged = |suffix: &str, bytes: Vec<u8>| {
        merge_layers_into(vec![Layer { media_type: format!("{TAR}{suffix}"), index: 0, bytes }])
    };
    let gzip = |content: &[u8]| {
        let mut gz = flate2::write::GzEncoder::new(Vec::new(), flate2::Compression::fast());
        gz.write_all(content).unwrap();
        gz.finish().unwrap()
    };
    let good = gzip(&plain);
    let mut bad_sum = good.clone();
    let n = bad_sum.len();
    bad_sum[n - 5] ^= 1;
    assert_eq!(merged("+gzip", bad_sum).unwrap(), whole);
    assert_eq!(merged("+gzip", good[..n - 3].to_vec()).unwrap(), whole);
    let mut xz = xz2::write::XzEncoder::new(Vec::new(), 6);
    xz.write_all(&plain).unwrap();
    let mut trailed = xz.finish().unwrap();
    trailed.extend_from_slice(b"behind");
    assert_eq!(merged("+xz", trailed).unwrap(), whole);
    // Damage where the archive has not ended yet is an error, between entries
    // too.
    let unended = gzip(&plain[..1024]);
    assert!(merged("+gzip", unended.clone()).is_ok());
    let cut = unended[..unended.len() - 3].to_vec();
    assert!(matches!(merged("+gzip", cut), Err(MergeError::Decode(_))));
    let half = gzip(&plain[..700]);
    assert!(matches!(merged("+gzip", half), Err(MergeError::Archive(_))));
}

#[test]
fn every_order_of_arrival_gives_the_same_archive() {
    let batch = merge_layers_into(three_layers()).unwrap();
    for order in [[0, 1, 2], [0, 2, 1], [1, 0, 2], [1, 2, 0], [2, 0, 1], [2, 1, 0]] {
        let arrivals = order.iter().map(|i| Arrival::Layer(three_layers().swap_remove(*i))).collect();
        let mut progress = vec![];
        let merged = merge_layers_into_streaming(arrivals, 3, &mut progress).unwrap();
        assert_eq!(merged, batch, "{order:?}");
        assert_eq!(
            progress,
            vec![
                PackerProgress::LayerStarted(2),
                PackerProgress::LayerFinished(2),
                PackerProgress::LayerStarted(1),
                PackerProgress::LayerFinished(1),
                PackerProgress::LayerStarted(0),
                PackerProgress::LayerFinished(0),
            ]
        );
        let batch_order = order.iter().map(|i| three_layers().swap_remove(*i)).collect();
        assert_eq!(merge_layers_into(batch_order).unwrap(), batch);
    }
}

#[test]
fn compressed_layers_merge_alike() {
    let plain = archive(&[file("x", b"content")]);
    let mut gz = flate2::write::GzEncoder::new(Vec::new(), flate2::Compression::fast());
    gz.write_all(&plain).unwrap();
    let gzipped = Layer {
        media_type: format!("{TAR}+gzip"),
        index: 0,
        bytes: gz.finish().unwrap(),
    };
    assert_eq!(
        merge_layers_into(vec![gzipped]).unwrap(),
        merge_layers_into(vec![layer(0, plain)]).unwrap()
    );
}

#[test]
fn failures_and_missing_layers_abort() {
    let mut progress = vec![];
    let mut arrivals: Vec<Arrival> = three_layers().into_iter().rev().map(Arrival::Layer).collect();
    arrivals.truncate(2);
    arrivals.push(Arrival::Failed("no route".to_string()));
    match merge_layers_into_streaming(arrivals, 3, &mut progress) {
        Err(MergeError::Download(reason)) => assert_eq!(reason, "no route"),
        _ => panic!("a failed download aborts"),
    }
    assert_eq!(progress.len(), 4);
    let mut progress = vec![];
    let one = vec![Arrival::Layer(layer(0, archive(&[])))];
    assert!(matches!(
        merge_layers_into_streaming(one, 2, &mut progress),
        Err(MergeError::Closed { received: 1, total: 2 })
    ));
    assert!(progress.is_empty());
    let empty = merge_layers_into_streaming(vec![], 0, &mut progress).unwrap();
    assert_eq!(empty, vec![0; 1024]);
    let more = vec![
        Arrival::Layer(layer(0, archive(&[file("f", b"1")]))),
        Arrival::Failed("too late".to_string()),
    ];
    assert!(merge_layers_into_streaming(more, 1, &mut progress).is_ok());
}

#[test]
fn a_layer_that_fails_only_starts() {
    let mut progress = vec![PackerProgress::LayerFinished(9)];
    let arrivals = vec![
        Arrival::Layer(layer(0, b"this is no archive".to_vec())),
        Arrival::Layer(layer(1, archive(&[file("f", b"1")]))),
    ];
    assert!(matches!(
        merge_layers_into_streaming(arrivals, 2, &mut progress),
        Err(MergeError::Archive(_))
    ));
    assert_eq!(
        progress,
        vec![
            PackerProgress::LayerFinished(9),
            PackerProgress::LayerStarted(1),
            PackerProgress::LayerFinished(1),
            PackerProgress::LayerStarted(0),
        ]
    );
}

#[test]
fn layers_that_cannot_be_merged() {
    let unknown = Layer { media_type: "text/plain".into(), index: 0, bytes: vec![] };
    assert!(matches!(
        merge_layers_into(vec![unknown]),
        Err(MergeError::Layer(LayerError::UnsupportedMediaType))
    ));
    let damaged = Layer { media_type: format!("{TAR}+gzip"), index: 0, bytes: b"nope".to_vec() };
    assert!(matches!(
        merge_layers_into(vec![damaged]),
        Err(MergeError::Decode(_))
    ));
    let untargeted = layer(0, archive(&[hardlink("l", "")]));
    assert!(matches!(merge_layers_into(vec![untargeted]), Err(MergeError::NoLinkTarget)));
    let mut b = tar::Builder::new(Vec::new());
    let mut h = tar::Header::new_gnu();
    h.as_mut_bytes()[..6].copy_from_slice(b"a/../b");
    h.set_size(0);
    h.set_cksum();
    b.append(&h, &[] as &[u8]).unwrap();
    let dotdot = layer(0, b.into_inner().unwrap());
    assert!(matches!(merge_layers_into(vec![dotdot]), Err(MergeError::Write(_))));
}

#[test]
fn names_that_are_not_text_are_replaced() {
    let mut b = tar::Builder::new(Vec::new());
    let mut h = tar::Header::new_gnu();
    h.as_mut_bytes()[..3].copy_from_slice(b"a\xffb");
    h.set_size(0);
    h.set_cksum();
    b.append(&h, &[] as &[u8]).unwrap();
    let merged = merge_layers_into(vec![layer(0, b.into_inner().unwrap())]).unwrap();
    assert_eq!(listing(&merged)[0].0, "a\u{fffd}b");
}

#[test]
fn groups_come_in_path_order_with_the_oldest_link_as_the_file() {
    let merged = merge_layers_into(vec![
        layer(0, archive(&[file("z", b"zz"), file("m", b"mm"), hardlink("z0", "z")])),
        layer(1, archive(&[hardlink("z1", "z"), hardlink("m1", "m")])),
        layer(2, archive(&[file(".wh.z", b""), file(".wh.m", b"")])),
    ])
    .unwrap();
    let names: Vec<String> = listing(&merged).into_iter().map(|e| e.0).collect();
    assert_eq!(names, vec!["m1", "z0", "z1"]);
    let kinds: Vec<tar::EntryType> = listing(&merged).into_iter().map(|e| e.1).collect();
    assert_eq!(
        kinds,
        vec![tar::EntryType::Regular, tar::EntryType::Regular, tar::EntryType::Link]
    );
}

#[test]
fn a_whiteout_of_the_directory_itself() {
    // A whiteout without a name removes its own directory.
    let merged = merge_layers_into(vec![
        layer(0, archive(&[file("d/x", b"1"), file("e", b"2")])),
        layer(1, archive(&[file("d/.wh.", b"")])),
    ])
    .unwrap();
    assert_eq!(listing(&merged).len(), 1);
    assert_eq!(listing(&merged)[0].0, "e");
}

#[test]
fn a_newer_hard_link_hides_what_was_below_its_path() {
    let merged = merge_layers_into(vec![
        layer(0, archive(&[file("t", b"1"), file("p/x", b"2")])),
        layer(1, archive(&[hardlink("p", "t")])),
    ])
    .unwrap();
    let names: Vec<String> = listing(&merged).into_iter().map(|e| e.0).collect();
    assert_eq!(names, vec!["t", "p"]);
}

// ── Entry by entry ──────────────────────────────────────────────────────────

fn entry(path: &str, kind: tar::EntryType, pax: Vec<PaxRecord>) -> TarEntry {
    let mut h = tar::Header::new_ustar();
    h.set_entry_type(kind);
    h.set_link_name("t").unwrap();
    h.set_cksum();
    TarEntry { path: path.as_bytes().to_vec(), header: *h.as_bytes(), pax, data: vec![] }
}

#[test]
fn entries_are_judged_one_by_one() {
    let regular = tar::EntryType::Regular;
    let mut m = LayerMerger::new();
    for root in ["", "./", "/", ".", "././."] {
        assert!(matches!(
            m.judge(&entry(root, tar::EntryType::Directory, vec![]), 1),
            Ok(Admission::Skip)
        ));
    }
    assert!(matches!(m.judge(&entry(".wh.t", regular, vec![]), 1), Ok(Admission::Skip)));
    match m.judge(&entry("./new", regular, vec![]), 1) {
        Ok(Admission::Emit { path, .. }) => assert_eq!(path, "new"),
        _ => panic!("new content is written"),
    }
    assert!(matches!(m.judge(&entry("new", regular, vec![]), 0), Ok(Admission::Skip)));
    assert!(matches!(m.judge(&entry("l", tar::EntryType::Link, vec![]), 0), Ok(Admission::Skip)));
    match m.judge(&entry("t", regular, vec![]), 0) {
        Ok(Admission::Buffer { path, canonical }) => m.buffer(path, canonical, b"data".to_vec()),
        _ => panic!("removed content is kept for links"),
    }
    assert!(matches!(
        m.judge(&entry("t", tar::EntryType::Directory, vec![]), 0),
        Ok(Admission::Skip)
    ));
    assert!(matches!(
        m.judge(&entry("bad", regular, vec![PaxRecord::Malformed]), 0),
        Err(MergeError::Header(HeaderError::MalformedPax))
    ));
    m.end_layer();
    let rest = m.finish();
    assert_eq!(rest.len(), 1);
    match &rest[0] {
        Emission::Entry { path, data, canonical } => {
            assert_eq!((path.as_str(), data.as_slice()), ("l", b"data".as_slice()));
            assert_eq!(canonical.entry_type(), ocirender::canonical::EntryType::Regular);
        }
        Emission::HardLink { .. } => panic!("the only link becomes a file"),
    }
    let mut out = Vec::new();
    rest[0].write(&mut out).unwrap();
    assert_eq!(out.len(), 1024);
}
