//! What a reader finds in an archive that was written.

use ocirender::canonical::{CanonicalTarHeader, EntryType, HeaderError};
use ocirender::overlay::{archive_trailer, merge_layers_into, Layer, MergeError};
use ocirender::path::normal_components;
use std::io::Read;

const TAR: &str = "application/vnd.oci.image.layer.v1.tar";

struct Seen {
    path: String,
    link: Option<String>,
    records: Vec<(String, Vec<u8>)>,
    block: [u8; 512],
    data: Vec<u8>,
}

fn read(archive: &[u8]) -> Vec<Seen> {
    let mut seen = Vec::new();
    for entry in tar::Archive::new(archive).entries().unwrap() {
        let mut entry = entry.unwrap();
        let path = String::from_utf8(entry.path_bytes().to_vec()).unwrap();
        let link = entry.link_name_bytes().map(|b| String::from_utf8(b.to_vec()).unwrap());
        let block = *entry.header().as_bytes();
        let mut records = Vec::new();
        if let Some(list) = entry.pax_extensions().unwrap() {
            for record in list {
                let record = record.unwrap();
                records.push((record.key().unwrap().to_string(), record.value_bytes().to_vec()));
            }
        }
        let mut data = Vec::new();
        entry.read_to_end(&mut data).unwrap();
        seen.push(Seen { path, link, records, block, data });
    }
    seen
}

fn block(mut header: tar::Header, size: u64) -> [u8; 512] {
    header.set_mode(0o640);
    header.set_uid(7);
    header.set_gid(8);
    header.set_mtime(9);
    header.set_entry_type(tar::EntryType::Regular);
    header.set_size(size);
    header.set_cksum();
    *header.as_bytes()
}

fn finished(mut body: Vec<u8>) -> Vec<u8> {
    body.extend_from_slice(&archive_trailer().unwrap());
    body
}

#[test]
fn written_entries_are_read_back() {
    let mut paths = vec!["a".to_string(), "d/é/x".to_string(), "./d//e/".to_string()];
    for n in [98, 99, 100, 101, 150, 254, 255, 256, 300] {
        paths.push("p".repeat(n));
        paths.push(format!("dir/{}", "q".repeat(n)));
        paths.push(format!("{}/f", "r".repeat(n)));
        paths.push(format!("{}/mid/{}", "s".repeat(n / 2), "t".repeat(n / 2)));
    }
    let record_sets: Vec<Vec<(String, Vec<u8>)>> = vec![
        vec![],
        vec![("mtime".into(), b"9.5".to_vec())],
        vec![
            ("SCHILY.xattr.user.a b".into(), vec![0, 0xff, b'=', b' ']),
            ("comment".into(), vec![b'c'; 1000]),
            ("".into(), vec![]),
        ],
    ];
    let formats: [fn() -> tar::Header; 3] =
        [tar::Header::new_gnu, tar::Header::new_ustar, tar::Header::new_old];
    for new in formats {
        for records in &record_sets {
            for data in [&b""[..], b"hello", &[7u8; 512], &[8u8; 513]] {
                let mut out = Vec::new();
                let header = CanonicalTarHeader {
                    header: block(new(), data.len() as u64),
                    pax_extensions: records.clone(),
                };
                for path in &paths {
                    header.write_to_tar(path, data, &mut out).unwrap();
                }
                let seen = read(&finished(out));
                assert_eq!(seen.len(), paths.len());
                for (s, path) in seen.iter().zip(&paths) {
                    assert_eq!(normal_components(&s.path), normal_components(path));
                    assert_eq!(s.data, data);
                    assert_eq!(&s.records, records);
                    assert_eq!(s.block[100..148], header.header[100..148]);
                    assert_eq!(s.block[156..345], header.header[156..345]);
                    assert_eq!(s.block[500..], header.header[500..]);
                }
            }
        }
    }
}

#[test]
fn a_path_record_is_read_back() {
    for path in ["x/y".to_string(), format!("x/{}", "y".repeat(200))] {
        let header = CanonicalTarHeader {
            header: block(tar::Header::new_ustar(), 2),
            pax_extensions: vec![
                ("path".into(), format!("./{path}").into_bytes()),
                ("path".into(), b"later".to_vec()),
            ],
        };
        let mut out = Vec::new();
        header.write_to_tar(&path, b"hi", &mut out).unwrap();
        let seen = read(&finished(out));
        assert_eq!(seen.len(), 1);
        assert_eq!(normal_components(&seen[0].path), normal_components(&path));
        assert_eq!(seen[0].records.len(), 2);
        assert_eq!(seen[0].data, b"hi");
    }
}

#[test]
fn written_hard_links_are_read_back() {
    let base = CanonicalTarHeader {
        header: block(tar::Header::new_gnu(), 77),
        pax_extensions: vec![("mtime".into(), b"1".to_vec())],
    };
    let mut out = Vec::new();
    let mut pairs = Vec::new();
    for a in [1, 99, 100, 101, 400] {
        for b in [1, 99, 100, 101, 400] {
            pairs.push(("l".repeat(a), "t".repeat(b)));
        }
    }
    for (link, target) in &pairs {
        base.write_hardlink_to_tar(link, target, &mut out).unwrap();
    }
    let seen = read(&finished(out));
    assert_eq!(seen.len(), pairs.len());
    for (s, (link, target)) in seen.iter().zip(&pairs) {
        assert_eq!(&s.path, link);
        assert_eq!(s.link.as_ref(), Some(target));
        assert_eq!(EntryType::new(s.block[156]), EntryType::Link);
        assert_eq!(s.block[100..124], base.header[100..124]);
        assert!(s.data.is_empty());
    }
}

#[test]
fn a_prefix_of_the_header_does_not_count() {
    let mut header = tar::Header::new_ustar();
    header.as_ustar_mut().unwrap().prefix[..3].copy_from_slice(b"pre");
    let base = CanonicalTarHeader { header: block(header, 0), pax_extensions: vec![] };
    let mut out = Vec::new();
    base.write_to_tar("short", b"", &mut out).unwrap();
    base.write_hardlink_to_tar("link", "short", &mut out).unwrap();
    base.write_hardlink_to_tar(&"a".repeat(100), "t", &mut out).unwrap();
    let paths: Vec<String> = read(&finished(out)).into_iter().map(|s| s.path).collect();
    assert_eq!(paths, vec!["short".to_string(), "link".to_string(), "a".repeat(100)]);
}

#[test]
fn records_of_owner_and_size_are_read_back() {
    let large = 3_000_000_000u64;
    for (uid, size) in [("12", "5"), ("+7", "+5"), ("3000000000", "5")] {
        let header = CanonicalTarHeader {
            header: block(tar::Header::new_gnu(), 0),
            pax_extensions: vec![
                ("uid".into(), uid.as_bytes().to_vec()),
                ("gid".into(), b"no number".to_vec()),
                ("size".into(), size.as_bytes().to_vec()),
            ],
        };
        let mut out = Vec::new();
        header.write_to_tar("a", b"hello", &mut out).unwrap();
        header.write_to_tar(&"b".repeat(150), b"hello", &mut out).unwrap();
        let seen = read(&finished(out));
        assert_eq!(seen.len(), 2);
        for s in &seen {
            assert_eq!(s.data, b"hello");
            assert_eq!(s.records.len(), 3);
            let h = tar::Header::from_byte_slice(&s.block);
            let want = if uid == "12" { 12 } else if uid == "+7" { 7 } else { large };
            assert_eq!(h.uid().unwrap(), want);
            assert_eq!(h.gid().unwrap(), 8);
            let octal = format!("{want:07o}\0");
            let binary = (want | 1 << 63).to_be_bytes();
            let field = if want < 1 << 21 { octal.as_bytes() } else { &binary[..] };
            assert_eq!(&s.block[108..116], field);
        }
    }
}

#[test]
fn a_size_counts_by_its_value() {
    let spellings: [&[u8; 12]; 5] = [
        b"           5",
        b"5\0garbage...",
        b"+5          ",
        b"\t 005 \r\n    ",
        b"\x80\0\0\0\0\0\0\0\0\0\0\x05",
    ];
    for spelling in spellings {
        let mut raw = block(tar::Header::new_ustar(), 0);
        raw[124..136].copy_from_slice(spelling);
        let header = CanonicalTarHeader { header: raw, pax_extensions: vec![] };
        let mut out = Vec::new();
        header.write_to_tar("a", b"hello", &mut out).unwrap();
        header.write_to_tar("b", b"again", &mut out).unwrap();
        let seen = read(&finished(out));
        assert_eq!(seen.len(), 2);
        assert_eq!((seen[0].data.as_slice(), seen[1].data.as_slice()), (&b"hello"[..], &b"again"[..]));
    }
}

#[test]
fn extension_types_that_stand_for_themselves_are_read_back() {
    let record = vec![
        ("comment".to_string(), b"c".to_vec()),
        ("uid".to_string(), b"99".to_vec()),
        ("size".to_string(), b"1".to_vec()),
    ];
    let gnu: fn() -> tar::Header = tar::Header::new_gnu;
    let old: fn() -> tar::Header = tar::Header::new_old;
    let with = |new: fn() -> tar::Header, kind: u8, data: &[u8], records: &[(String, Vec<u8>)]| {
        let mut header = new();
        header.set_entry_type(tar::EntryType::new(kind));
        let mut raw = block(header, data.len() as u64);
        raw[156] = kind;
        (CanonicalTarHeader { header: raw, pax_extensions: records.to_vec() }, data.to_vec())
    };
    let cases = vec![
        with(gnu, b'g', b"content", &record),
        with(gnu, b'g', b"", &[]),
        with(old, b'g', b"content", &record),
        with(old, b'x', b"content", &record),
        with(old, b'x', b"", &[]),
        with(old, b'L', b"content", &[]),
        with(old, b'L', b"content", &record),
        with(old, b'K', b"content", &[]),
    ];
    for path in ["a".to_string(), "b".repeat(130)] {
        let mut out = Vec::new();
        for (header, data) in &cases {
            header.write_to_tar(&path, data, &mut out).unwrap();
        }
        let seen = read(&finished(out));
        assert_eq!(seen.len(), cases.len());
        for (s, (header, data)) in seen.iter().zip(&cases) {
            assert_eq!(s.path, path);
            assert_eq!(&s.data, data);
            assert_eq!(s.records, header.pax_extensions);
            assert_eq!(s.block[100..148], header.header[100..148]);
            assert_eq!(s.block[156], header.header[156]);
        }
    }
}

fn sparse(size: [u8; 12]) -> Vec<u8> {
    let mut header = tar::Header::new_gnu();
    header.set_path("s").unwrap();
    header.set_entry_type(tar::EntryType::GNUSparse);
    let raw = header.as_mut_bytes();
    raw[124..136].copy_from_slice(&size);
    raw[482] = 1;
    raw[483..495].copy_from_slice(b"00000000000\0");
    for i in 0..4 {
        raw[386 + 24 * i..386 + 24 * (i + 1)].fill(0);
    }
    header.set_cksum();
    let mut bytes = header.as_bytes().to_vec();
    bytes.extend_from_slice(&[0; 512]);
    bytes
}

#[test]
fn sparse_files_that_cannot_be_counted_with_are_refused() {
    let merged = |bytes: Vec<u8>| {
        merge_layers_into(vec![Layer { media_type: TAR.into(), index: 0, bytes }])
    };
    let zero = *b"00000000000\0";
    assert!(merged(sparse(zero)).is_ok());
    let mut huge = [0; 12];
    huge[0] = 0x80;
    huge[4..].copy_from_slice(&0xffff_ffff_ffff_fc00u64.to_be_bytes());
    assert!(matches!(merged(sparse(huge)), Err(MergeError::Oversized)));
    // The size may also come from a record.
    for size in ["18446744073709550592", "+18446744073709550592", "7"] {
        let mut builder = tar::Builder::new(Vec::new());
        builder.append_pax_extensions([("size", size.as_bytes())]).unwrap();
        let mut bytes = builder.get_ref().clone();
        bytes.extend_from_slice(&sparse(zero));
        let refused = matches!(merged(bytes.clone()), Err(MergeError::Oversized));
        assert_eq!(refused, size != "7");
        // Without a sparse file such a record is an ordinary fault.
        bytes.truncate(1024);
        assert!(matches!(merged(bytes), Err(MergeError::Archive(_))));
    }
}

#[test]
fn a_trailer_alone_is_an_archive_without_entries() {
    assert_eq!(archive_trailer().unwrap(), vec![0u8; 1024]);
    assert!(read(&archive_trailer().unwrap()).is_empty());
}

#[test]
fn a_merged_archive_is_read_back() {
    let long = format!("./deep/{}", "n".repeat(180));
    let layer = |files: &[(&str, &[u8])]| {
        let mut builder = tar::Builder::new(Vec::new());
        for (path, data) in files {
            let mut header = tar::Header::new_gnu();
            header.set_size(data.len() as u64);
            builder.append_data(&mut header, path, *data).unwrap();
        }
        builder.into_inner().unwrap()
    };
    let lower = layer(&[("./old", b"1"), (long.as_str(), b"long"), ("new", b"1")]);
    let upper = layer(&[("new", b"22")]);
    let layers = vec![
        Layer { media_type: TAR.into(), index: 0, bytes: lower },
        Layer { media_type: TAR.into(), index: 1, bytes: upper },
    ];
    let seen = read(&merge_layers_into(layers).unwrap());
    let found: Vec<(&str, &[u8])> =
        seen.iter().map(|s| (s.path.as_str(), s.data.as_slice())).collect();
    assert_eq!(
        found,
        vec![("new", &b"22"[..]), ("old", b"1"), (&long["./".len()..], b"long")]
    );
}

#[test]
fn a_layer_is_merged_up_to_where_it_breaks() {
    let member = |kind: tar::EntryType, data: &[u8]| {
        let mut header = tar::Header::new_ustar();
        header.set_path("m").unwrap();
        header.set_entry_type(kind);
        header.set_size(data.len() as u64);
        header.set_cksum();
        let mut bytes = header.as_bytes().to_vec();
        bytes.extend_from_slice(data);
        bytes.resize(bytes.len().next_multiple_of(512), 0);
        bytes
    };
    let file = member(tar::EntryType::Regular, b"data");
    let merged = |parts: &[&[u8]]| {
        merge_layers_into(vec![Layer { media_type: TAR.into(), index: 0, bytes: parts.concat() }])
    };
    let whole = merged(&[&file]).unwrap();
    assert_eq!(read(&whole).len(), 1);
    // A part of a block behind the last entry cannot be read.
    assert!(matches!(merged(&[&file, &[1; 100]]), Err(MergeError::Archive(_))));
    // Nor can an entry whose content breaks off.
    assert!(matches!(merged(&[&file[..514]]), Err(MergeError::Archive(_))));
    // What fails first is reported.
    let broken = member(tar::EntryType::XHeader, b"no record\n");
    assert!(matches!(
        merged(&[&broken, &file, &[1; 100]]),
        Err(MergeError::Header(HeaderError::MalformedPax))
    ));
    // Nothing behind the end of the archive counts.
    assert_eq!(merged(&[&file, &[0; 512], &[1; 100]]).unwrap(), whole);
}
