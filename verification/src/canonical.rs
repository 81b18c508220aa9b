//! Tar headers with their extended header records.
//!
//! The fixed fields of a tar header hold 100 bytes of a path or a link target.
//! Longer values come in extended header records before the header, and take
//! precedence over the fields. [`CanonicalTarHeader`] keeps the two together,
//! and its accessors prefer the records.

use crate::archive::{
    block_checksum, block_link_name, block_path, checksummed, digits_value, entry_behind,
    entry_head, has_checksum, header_link_name, header_path, heads_plain, is_entry_at, is_ustar,
    no_prefix, octal_field, overridden, padded, padding_len, pax_member, pax_value, plain_records,
    pow8, read_records, reads, reads_entry, record_views, same_but_path, size_value, spliced,
    until_zero, with_checksum, with_size, without_leading, without_trailing, write_data, write_pax,
    write_raw, zeros, EntryView, PaxRecord, TarEntry,
};
use crate::path::names;
use crate::text::{copy_bytes, lossy_text, same_text, starts_with, utf8_text};
use vstd::prelude::*;
use vstd::string::*;
use vstd::utf8::{
    decode_utf8, decode_utf8_encode_utf8, encode_utf8, encode_utf8_decode_utf8, encode_utf8_valid_utf8, valid_utf8,
};

verus! {

/// The type of a tar entry.
#[derive(Clone, Copy, Debug, PartialEq, Eq, Structural)]
pub enum EntryType {
    Regular,
    Link,
    Symlink,
    Char,
    Block,
    Directory,
    Fifo,
    Continuous,
    GNULongName,
    GNULongLink,
    GNUSparse,
    XGlobalHeader,
    XHeader,
    Other(u8),
}

/// The entry type that the type byte of a header stands for.
pub open spec fn entry_type_of(byte: u8) -> EntryType {
    if byte == 0 || byte == 0x30 {
        EntryType::Regular
    } else if byte == 0x31 {
        EntryType::Link
    } else if byte == 0x32 {
        EntryType::Symlink
    } else if byte == 0x33 {
        EntryType::Char
    } else if byte == 0x34 {
        EntryType::Block
    } else if byte == 0x35 {
        EntryType::Directory
    } else if byte == 0x36 {
        EntryType::Fifo
    } else if byte == 0x37 {
        EntryType::Continuous
    } else if byte == 0x78 {
        EntryType::XHeader
    } else if byte == 0x67 {
        EntryType::XGlobalHeader
    } else if byte == 0x4c {
        EntryType::GNULongName
    } else if byte == 0x4b {
        EntryType::GNULongLink
    } else if byte == 0x53 {
        EntryType::GNUSparse
    } else {
        EntryType::Other(byte)
    }
}

impl EntryType {
    /// The entry type that the type byte of a header stands for.
    pub fn new(byte: u8) -> (r: EntryType)
        ensures
            r == entry_type_of(byte),
            match r {
                EntryType::Regular => byte == 0 || byte == 0x30,
                EntryType::Link => byte == 0x31,
                EntryType::Symlink => byte == 0x32,
                EntryType::Char => byte == 0x33,
                EntryType::Block => byte == 0x34,
                EntryType::Directory => byte == 0x35,
                EntryType::Fifo => byte == 0x36,
                EntryType::Continuous => byte == 0x37,
                EntryType::GNULongName => byte == 0x4c,
                EntryType::GNULongLink => byte == 0x4b,
                EntryType::GNUSparse => byte == 0x53,
                EntryType::XGlobalHeader => byte == 0x67,
                EntryType::XHeader => byte == 0x78,
                EntryType::Other(b) => b == byte && !(0x30 <= byte <= 0x37) && byte != 0 && byte
                    != 0x4c && byte != 0x4b && byte != 0x53 && byte != 0x67 && byte != 0x78,
            },
    {
        match byte {
            0 | 0x30 => EntryType::Regular,
            0x31 => EntryType::Link,
            0x32 => EntryType::Symlink,
            0x33 => EntryType::Char,
            0x34 => EntryType::Block,
            0x35 => EntryType::Directory,
            0x36 => EntryType::Fifo,
            0x37 => EntryType::Continuous,
            0x78 => EntryType::XHeader,
            0x67 => EntryType::XGlobalHeader,
            0x4c => EntryType::GNULongName,
            0x4b => EntryType::GNULongLink,
            0x53 => EntryType::GNUSparse,
            b => EntryType::Other(b),
        }
    }
}

/// Why the header of an entry cannot be captured.
#[derive(Clone, Copy, Debug, PartialEq, Eq, Structural)]
pub enum HeaderError {
    /// A line of the extended header is not a record.
    MalformedPax,
    /// The key of an extended header record is not UTF-8.
    PaxKeyNotUtf8,
}

/// The values of a [`CanonicalTarHeader`].
#[verifier::ext_equal]
pub struct HeaderView {
    pub block: Seq<u8>,
    pub pax: Seq<(Seq<char>, Seq<u8>)>,
}

/// A tar header paired with its extended header records.
///
/// All path and link target accessors prefer the record over the header field,
/// which holds no more than 100 bytes.
#[derive(Debug)]
pub struct CanonicalTarHeader {
    /// The header block.
    pub header: [u8; 512],
    /// The extended header records, in the order of the archive.
    pub pax_extensions: Vec<(String, Vec<u8>)>,
}

impl View for CanonicalTarHeader {
    type V = HeaderView;

    open spec fn view(&self) -> HeaderView {
        HeaderView { block: self.header@, pax: record_views(self.pax_extensions@) }
    }
}

impl Clone for CanonicalTarHeader {
    fn clone(&self) -> (r: Self)
        ensures
            r@ == self@,
    {
        let mut pax: Vec<(String, Vec<u8>)> = Vec::new();
        for i in 0..self.pax_extensions.len()
            invariant
                record_views(pax@) == record_views(self.pax_extensions@).take(i as int),
        {
            let ghost before = pax@;
            pax.push(
                (self.pax_extensions[i].0.clone(), copy_bytes(self.pax_extensions[i].1.as_slice())),
            );
            let ghost all = record_views(self.pax_extensions@);
            assert(record_views(pax@) =~= record_views(before).push(all[i as int]));
            assert(all.take(i + 1) =~= all.take(i as int).push(all[i as int]));
        }
        let r = CanonicalTarHeader { header: self.header, pax_extensions: pax };
        assert(r@ =~= self@);
        r
    }
}

// ── Capturing ───────────────────────────────────────────────────────────────

/// The records of an entry as text keys and byte values, or the first fault.
pub open spec fn captured_pax(records: Seq<Option<(Seq<u8>, Seq<u8>)>>) -> Result<
    Seq<(Seq<char>, Seq<u8>)>,
    HeaderError,
>
    decreases records.len(),
{
    if records.len() == 0 {
        Ok(Seq::empty())
    } else {
        match captured_pax(records.drop_last()) {
            Err(e) => Err(e),
            Ok(before) => match records.last() {
                None => Err(HeaderError::MalformedPax),
                Some((key, value)) => if valid_utf8(key) {
                    Ok(before.push((decode_utf8(key), value)))
                } else {
                    Err(HeaderError::PaxKeyNotUtf8)
                },
            },
        }
    }
}

/// The header captured from an entry.
pub open spec fn captured(e: EntryView) -> Result<HeaderView, HeaderError> {
    match captured_pax(e.pax) {
        Ok(pax) => Ok(HeaderView { block: e.header, pax }),
        Err(f) => Err(f),
    }
}

proof fn lemma_captured_fault(records: Seq<Option<(Seq<u8>, Seq<u8>)>>, n: int)
    requires
        0 <= n <= records.len(),
        captured_pax(records.take(n)) is Err,
    ensures
        captured_pax(records) == captured_pax(records.take(n)),
    decreases records.len() - n,
{
    if n < records.len() {
        assert(records.take(n + 1).drop_last() =~= records.take(n));
        lemma_captured_fault(records, n + 1);
    } else {
        assert(records.take(n) =~= records);
    }
}

// ── Lookup ──────────────────────────────────────────────────────────────────

/// The path of an entry with this header.
pub open spec fn header_path_of(h: HeaderView) -> Seq<u8> {
    match pax_value(h.pax, "path"@) {
        Some(v) => v,
        None => block_path(h.block),
    }
}

/// The link target of an entry with this header.
pub open spec fn link_name_of(h: HeaderView) -> Option<Seq<u8>> {
    match pax_value(h.pax, "linkpath"@) {
        Some(v) => Some(v),
        None => block_link_name(h.block),
    }
}

/// The type of an entry with this header.
pub open spec fn type_of(h: HeaderView) -> EntryType {
    entry_type_of(h.block[156])
}

// ── Derived headers ─────────────────────────────────────────────────────────

/// Whether a record stays when an entry becomes a plain regular file.
pub open spec fn stays_regular(key: Seq<char>) -> bool {
    key != "path"@ && key != "linkpath"@ && !"GNU.sparse."@.is_prefix_of(key)
}

/// The records that stay when an entry becomes a plain regular file.
pub open spec fn regular_pax(pax: Seq<(Seq<char>, Seq<u8>)>) -> Seq<(Seq<char>, Seq<u8>)>
    decreases pax.len(),
{
    if pax.len() == 0 {
        Seq::empty()
    } else if stays_regular(pax.last().0) {
        regular_pax(pax.drop_last()).push(pax.last())
    } else {
        regular_pax(pax.drop_last())
    }
}

/// The header of a regular file with the metadata of `h`.
pub open spec fn as_regular(h: HeaderView) -> HeaderView {
    HeaderView { block: h.block.update(156, 0x30u8), pax: regular_pax(h.pax) }
}

/// The first `width` bytes of `bytes`, with zeros behind them.
pub open spec fn field_bytes(bytes: Seq<u8>, width: int) -> Seq<u8> {
    let kept = if bytes.len() <= width {
        bytes
    } else {
        bytes.take(width)
    };
    kept + zeros((width - kept.len()) as nat)
}

/// The records of a hard link: those whose value does not fit the header field.
pub open spec fn hardlink_pax(link: Seq<u8>, target: Seq<u8>) -> Seq<(Seq<char>, Seq<u8>)> {
    (if link.len() > 100 {
        seq![("path"@, link)]
    } else {
        Seq::empty()
    }) + (if target.len() > 100 {
        seq![("linkpath"@, target)]
    } else {
        Seq::empty()
    })
}

/// A header block without the path prefix that a USTAR header may hold.
pub open spec fn unprefixed(block: Seq<u8>) -> Seq<u8> {
    if is_ustar(block) {
        spliced(block, 345, zeros(155))
    } else {
        block
    }
}

/// The header block of a hard link with the metadata of `block`, before its
/// checksum.
pub open spec fn hardlink_fields(block: Seq<u8>, link: Seq<u8>, target: Seq<u8>) -> Seq<u8> {
    let typed = unprefixed(block).update(156, 0x31u8);
    let sized = spliced(typed, 124, octal_field(0, 12));
    let named = spliced(sized, 0, field_bytes(link, 100));
    spliced(named, 157, field_bytes(target, 100))
}

/// The header of a hard link from `link` to `target` with the metadata of `h`.
pub open spec fn as_hardlink(h: HeaderView, link: Seq<u8>, target: Seq<u8>) -> HeaderView {
    HeaderView {
        block: checksummed(hardlink_fields(h.block, link, target)),
        pax: hardlink_pax(link, target),
    }
}

/// What precedes an entry with these records in an archive.
pub open spec fn pax_prefix(pax: Seq<(Seq<char>, Seq<u8>)>) -> Seq<u8> {
    if pax.len() == 0 {
        Seq::empty()
    } else {
        pax_member(pax)
    }
}

/// The bytes of a hard link in an archive.
pub open spec fn hardlink_bytes(h: HeaderView, link: Seq<char>, target: Seq<char>) -> Seq<u8> {
    let out = as_hardlink(h, encode_utf8(link), encode_utf8(target));
    pax_prefix(out.pax) + out.block
}

/// The bytes of an entry at `path` with content `data` in an archive, or
/// `None` where the path cannot be written.
pub open spec fn entry_bytes(h: HeaderView, path: Seq<char>, data: Seq<u8>) -> Option<Seq<u8>> {
    match entry_head(unprefixed(h.block), path) {
        Some(head) => Some(pax_prefix(h.pax) + head + padded(data)),
        None => None,
    }
}

/// Whether a hard link comes back when the archive is read. A line break ends a
/// record, and a zero byte the name field.
pub open spec fn hardlink_readable(link: Seq<char>, target: Seq<char>) -> bool {
    &&& encode_utf8(link).len() > 100 ==> !encode_utf8(link).contains(0x0au8)
    &&& encode_utf8(target).len() > 100 ==> !encode_utf8(target).contains(0x0au8)
    &&& encode_utf8(link).len() <= 100 ==> !encode_utf8(link).contains(0u8)
}

/// A hard link as it is read.
pub open spec fn hardlink_seen(h: HeaderView, link: Seq<char>, target: Seq<char>) -> EntryView {
    let out = as_hardlink(h, encode_utf8(link), encode_utf8(target));
    EntryView {
        path: encode_utf8(link),
        header: out.block,
        pax: read_records(out.pax),
        data: Seq::empty(),
    }
}

/// Whether an entry comes back when the archive is read: its header and records
/// are of a plain entry with this content, the records can be told apart, and
/// none holds another path.
pub open spec fn entry_readable(h: HeaderView, path: Seq<char>, data: Seq<u8>) -> bool {
    &&& heads_plain(h.block, h.pax, data.len())
    &&& plain_records(h.pax)
    &&& pax_value(h.pax, "path"@) matches Some(v) ==> names(lossy_text(v)) == names(path)
}

/// Whether `e` is the entry at `path` with the metadata of `h` and the given
/// content, as it is read. Records of an owner and a group count in place of the
/// header fields.
pub open spec fn shows_entry(e: EntryView, h: HeaderView, path: Seq<char>, data: Seq<u8>) -> bool {
    &&& names(lossy_text(e.path)) == names(path)
    &&& same_but_path(e.header, overridden(h.block, h.pax))
    &&& e.pax == read_records(h.pax)
    &&& e.data == data
}

impl CanonicalTarHeader {
    /// Capture the header and the extended header records of an entry.
    pub fn from_entry(entry: &TarEntry) -> (r: Result<Self, HeaderError>)
        ensures
            match r {
                Ok(h) => captured(entry@) == Ok::<HeaderView, HeaderError>(h@),
                Err(e) => captured(entry@) == Err::<HeaderView, HeaderError>(e),
            },
    {
        let mut pairs: Vec<(String, Vec<u8>)> = Vec::new();
        let ghost all = entry@.pax;
        assert(all.take(0) =~= Seq::empty());
        assert(record_views(pairs@) =~= Seq::empty());
        for i in 0..entry.pax.len()
            invariant
                all == entry@.pax,
                captured_pax(all.take(i as int)) == Ok::<
                    Seq<(Seq<char>, Seq<u8>)>,
                    HeaderError,
                >(record_views(pairs@)),
        {
            let ghost before = record_views(pairs@);
            proof {
                assert(all.take(i + 1).drop_last() =~= all.take(i as int));
                assert(all.take(i + 1).last() == entry.pax@[i as int]@);
            }
            match &entry.pax[i] {
                PaxRecord::Malformed => {
                    proof {
                        lemma_captured_fault(all, i + 1);
                    }
                    return Err(HeaderError::MalformedPax);
                },
                PaxRecord::Pair { key, value } => {
                    match utf8_text(copy_bytes(key.as_slice())) {
                        None => {
                            proof {
                                lemma_captured_fault(all, i + 1);
                            }
                            return Err(HeaderError::PaxKeyNotUtf8);
                        },
                        Some(text) => {
                            pairs.push((text, copy_bytes(value.as_slice())));
                            assert(record_views(pairs@) =~= before.push((text@, value@)));
                        },
                    }
                },
            }
        }
        assert(all.take(all.len() as int) =~= all);
        Ok(CanonicalTarHeader { header: entry.header, pax_extensions: pairs })
    }

    fn lookup(&self, key: &str) -> (r: Option<usize>)
        ensures
            match r {
                Some(i) => i < self.pax_extensions@.len() && pax_value(self@.pax, key@) == Some(
                    self.pax_extensions@[i as int].1@,
                ),
                None => pax_value(self@.pax, key@) is None,
            },
            match r {
                Some(i) => i < self.pax_extensions@.len() && self.pax_extensions@[i as int].0@
                    == key@ && forall|j: int|
                    0 <= j < i ==> (#[trigger] self.pax_extensions@[j]).0@ != key@,
                None => forall|j: int|
                    0 <= j < self.pax_extensions@.len() ==> (#[trigger] self.pax_extensions@[j]).0@
                        != key@,
            },
    {
        let ghost all = self@.pax;
        assert(all.skip(0) =~= all);
        for i in 0..self.pax_extensions.len()
            invariant
                all == self@.pax,
                pax_value(all.skip(i as int), key@) == pax_value(all, key@),
                forall|j: int| 0 <= j < i ==> (#[trigger] self.pax_extensions@[j]).0@ != key@,
        {
            if same_text(self.pax_extensions[i].0.as_str(), key) {
                return Some(i);
            }
            assert(all.skip(i as int).drop_first() =~= all.skip(i + 1));
        }
        None
    }

    /// Return the entry path, preferring the `path` record over the header
    /// field.
    pub fn path(&self) -> (r: Vec<u8>)
        ensures
            r@ == header_path_of(self@),
    {
        match self.lookup("path") {
            Some(i) => copy_bytes(self.pax_extensions[i].1.as_slice()),
            None => header_path(&self.header),
        }
    }

    /// Return the entry type.
    pub fn entry_type(&self) -> (r: EntryType)
        ensures
            r == type_of(self@),
            r == EntryType::Link <==> self.header@[156] == 0x31,
            r == EntryType::Directory <==> self.header@[156] == 0x35,
            r == EntryType::Regular <==> self.header@[156] == 0x30 || self.header@[156] == 0,
            r == EntryType::Symlink <==> self.header@[156] == 0x32,
            r == EntryType::Continuous <==> self.header@[156] == 0x37,
    {
        EntryType::new(self.header[156])
    }

    /// Return the link target, preferring the `linkpath` record over the header
    /// field. `None` where there is neither.
    pub fn link_name(&self) -> (r: Option<Vec<u8>>)
        ensures
            match r {
                Some(v) => link_name_of(self@) == Some(v@),
                None => link_name_of(self@) is None,
            },
    {
        match self.lookup("linkpath") {
            Some(i) => Some(copy_bytes(self.pax_extensions[i].1.as_slice())),
            None => header_link_name(&self.header),
        }
    }

    /// Return a copy of this header for a regular file at a path that the
    /// caller supplies.
    ///
    /// The type becomes a regular file. The records `path` and `linkpath` go,
    /// which would override the new path, and so do those of a sparse file,
    /// since the content is whole. All other metadata stays.
    pub fn clone_as_regular(&self) -> (r: Self)
        ensures
            r@ == as_regular(self@),
            r.header@ == self.header@.update(156, 0x30u8),
            record_views(r.pax_extensions@) == record_views(self.pax_extensions@).filter(
                |x: (Seq<char>, Seq<u8>)|
                    x.0 != "path"@ && x.0 != "linkpath"@ && !"GNU.sparse."@.is_prefix_of(x.0),
            ),
    {
        proof {
            law_regular_drops_paths_and_sparse_maps(self@.pax);
        }
        let mut pax: Vec<(String, Vec<u8>)> = Vec::new();
        let ghost all = self@.pax;
        assert(all.take(0) =~= Seq::empty());
        assert(record_views(pax@) =~= Seq::empty());
        for i in 0..self.pax_extensions.len()
            invariant
                all == self@.pax,
                record_views(pax@) == regular_pax(all.take(i as int)),
        {
            let ghost before = record_views(pax@);
            assert(all.take(i + 1).drop_last() =~= all.take(i as int));
            let key = self.pax_extensions[i].0.as_str();
            if !same_text(key, "path") && !same_text(key, "linkpath") && !starts_with(
                key,
                "GNU.sparse.",
            ) {
                pax.push(
                    (
                        self.pax_extensions[i].0.clone(),
                        copy_bytes(self.pax_extensions[i].1.as_slice()),
                    ),
                );
                assert(record_views(pax@) =~= before.push(all[i as int]));
            }
        }
        assert(all.take(all.len() as int) =~= all);
        let mut header: [u8; 512] = self.header;
        header[156] = 0x30;
        assert(header@ =~= self.header@.update(156, 0x30u8));
        CanonicalTarHeader { header, pax_extensions: pax }
    }

    /// Write a hard link entry from `link_path` to `target_path` behind `out`,
    /// with the metadata of `self`.
    ///
    /// A path or target that does not fit its header field is given in an
    /// extended header record. The long name entries that the `tar` crate would
    /// put between the records and the header are thereby avoided: a reader
    /// would take the records to belong to them.
    pub fn write_hardlink_to_tar(
        &self,
        link_path: &str,
        target_path: &str,
        out: &mut Vec<u8>,
    ) -> (r: Result<(), std::io::Error>)
        ensures
            r is Ok,
            final(out)@ == old(out)@ + hardlink_bytes(self@, link_path@, target_path@),
            hardlink_readable(link_path@, target_path@) ==> reads(
                hardlink_bytes(self@, link_path@, target_path@),
                seq![hardlink_seen(self@, link_path@, target_path@)],
            ),
    {
        let link = link_path.as_bytes();
        let target = target_path.as_bytes();
        let mut pax: Vec<(String, Vec<u8>)> = Vec::new();
        if link.len() > 100 {
            pax.push(("path".to_owned(), copy_bytes(link)));
        }
        if target.len() > 100 {
            pax.push(("linkpath".to_owned(), copy_bytes(target)));
        }
        assert(record_views(pax@) =~= hardlink_pax(link@, target@));
        let ghost before = out@;
        let ghost mut prefix: Seq<u8> = Seq::empty();
        if pax.len() > 0 {
            let bytes = write_pax(&pax)?;
            out.extend_from_slice(bytes.as_slice());
            proof {
                prefix = bytes@;
            }
        }
        assert(prefix == pax_prefix(record_views(pax@)));
        assert(out@ =~= before + prefix);
        let mut typed: [u8; 512] = without_prefix(&self.header);
        typed[156] = 0x31;
        assert(typed@ =~= unprefixed(self.header@).update(156, 0x31u8));
        let sized = with_size(&typed, 0);
        let named = with_field(&sized, 0, link);
        let linked = with_field(&named, 157, target);
        let header = with_checksum(&linked);
        let nothing: Vec<u8> = Vec::new();
        let bytes = write_raw(&header, nothing.as_slice())?;
        assert(padded(nothing@) =~= Seq::empty());
        assert(bytes@ =~= header@);
        out.extend_from_slice(bytes.as_slice());
        assert(out@ =~= before + hardlink_bytes(self@, link_path@, target_path@));
        proof {
            let h = self@;
            let records = record_views(pax@);
            let seen = hardlink_seen(h, link_path@, target_path@);
            assert(nothing@ =~= Seq::empty());
            assert(header@ + padded(nothing@) =~= header@);
            assert(prefix + header@ =~= hardlink_bytes(h, link_path@, target_path@));
            if hardlink_readable(link_path@, target_path@) {
                lemma_hardlink_heads_plain(h, link@, target@);
                lemma_hardlink_records_plain(link@, target@);
                law_hardlink_path_kept(h, link@, target@);
                assert(entry_behind(records, header@, nothing@) =~= seen);
                if pax.len() > 0 {
                    assert(reads(
                        prefix + (header@ + padded(nothing@)),
                        seq![entry_behind(records, header@, nothing@)],
                    ));
                } else {
                    assert(records =~= Seq::empty());
                    assert(prefix + header@ =~= header@);
                }
            }
        }
        Ok(())
    }

    /// Write this entry at `path` with content `data` behind `out`, its
    /// extended header records first. Nothing is written where the path is
    /// refused.
    pub fn write_to_tar(&self, path: &str, data: &[u8], out: &mut Vec<u8>) -> (r: Result<
        (),
        std::io::Error,
    >)
        ensures
            match r {
                Ok(_) => entry_bytes(self@, path@, data@) matches Some(b) && final(out)@ == old(
                    out,
                )@ + b,
                Err(_) => entry_bytes(self@, path@, data@) is None && final(out)@ == old(out)@,
            },
            r is Ok && entry_readable(self@, path@, data@) ==> exists|e: EntryView|
                #[trigger] reads(entry_bytes(self@, path@, data@)->Some_0, seq![e]) && shows_entry(
                    e,
                    self@,
                    path@,
                    data@,
                ),
    {
        let header = without_prefix(&self.header);
        let member = write_data(&header, path, data)?;
        let ghost before = out@;
        let ghost mut prefix: Seq<u8> = Seq::empty();
        if self.pax_extensions.len() > 0 {
            let bytes = write_pax(&self.pax_extensions)?;
            out.extend_from_slice(bytes.as_slice());
            proof {
                prefix = bytes@;
            }
        }
        assert(prefix == pax_prefix(self@.pax));
        assert(out@ =~= before + prefix);
        out.extend_from_slice(member.as_slice());
        proof {
            let b = entry_bytes(self@, path@, data@)->Some_0;
            assert(out@ =~= before + b);
            if entry_readable(self@, path@, data@) {
                let pax = self@.pax;
                let head = entry_head(header@, path@)->Some_0;
                assert(b =~= prefix + (head + padded(data@)));
                lemma_unprefixed_heads(self.header@, pax, data@.len());
                lemma_overridden(self.header@, header@, pax);
                if self.pax_extensions.len() == 0 {
                    assert(b =~= member@);
                    assert(pax =~= Seq::empty());
                }
                assert(reads_entry(
                    prefix + (head + padded(data@)),
                    pax,
                    header@,
                    path@,
                    data@,
                ));
                let seen = choose|e: EntryView|
                    #[trigger] reads(b, seq![e]) && is_entry_at(e, pax, header@, path@, data@);
                assert(reads(b, seq![seen]));
                assert(shows_entry(seen, self@, path@, data@));
            }
        }
        Ok(())
    }
}

/// Nothing but the path tells a header block from one without its prefix.
proof fn lemma_unprefixed_heads(block: Seq<u8>, pax: Seq<(Seq<char>, Seq<u8>)>, len: nat)
    requires
        heads_plain(block, pax, len),
    ensures
        heads_plain(unprefixed(block), pax, len),
{
    assert(unprefixed(block).subrange(124, 136) =~= block.subrange(124, 136));
}

/// Records take the place of the same fields in header blocks that agree but for
/// the path, and of none behind them.
proof fn lemma_overridden(a: Seq<u8>, b: Seq<u8>, pax: Seq<(Seq<char>, Seq<u8>)>)
    requires
        same_but_path(a, b),
    ensures
        same_but_path(overridden(a, pax), overridden(b, pax)),
        overridden(a, pax).subrange(156, 345) == a.subrange(156, 345),
{
    let (x, y) = (overridden(a, pax), overridden(b, pax));
    assert(a[156] == a.subrange(156, 345)[0] && b[156] == b.subrange(156, 345)[0]);
    assert(x.len() == 512 && y.len() == 512);
    assert(x.subrange(100, 148) =~= y.subrange(100, 148)) by {
        assert forall|i: int| 0 <= i < 48 implies x.subrange(100, 148)[i] == y.subrange(
            100,
            148,
        )[i] by {
            assert(a.subrange(100, 148)[i] == b.subrange(100, 148)[i]);
        }
    }
    assert(x.subrange(156, 345) =~= a.subrange(156, 345));
    assert(y.subrange(156, 345) =~= b.subrange(156, 345));
    assert(x.subrange(500, 512) =~= a.subrange(500, 512));
    assert(y.subrange(500, 512) =~= b.subrange(500, 512));
}

proof fn lemma_zero_digits(n: nat)
    ensures
        digits_value(Seq::new(n, |i: int| 0x30u8), 8) == 0,
    decreases n,
{
    let digits = Seq::new(n, |i: int| 0x30u8);
    if n > 0 {
        assert(digits.drop_last() =~= Seq::new((n - 1) as nat, |i: int| 0x30u8));
        lemma_zero_digits((n - 1) as nat);
    }
}

/// The header block of a hard link is of a plain entry without content, and has
/// its checksum. Its records override none of its fields.
proof fn lemma_hardlink_heads_plain(h: HeaderView, link: Seq<u8>, target: Seq<u8>)
    requires
        h.block.len() == 512,
    ensures
        ({
            let out = as_hardlink(h, link, target);
            &&& heads_plain(out.block, out.pax, 0)
            &&& has_checksum(out.block)
            &&& overridden(out.block, out.pax) == out.block
        }),
{
    let fields = hardlink_fields(h.block, link, target);
    let out = as_hardlink(h, link, target).block;
    let pax = hardlink_pax(link, target);
    law_hardlink_keeps_metadata(h, link, target);
    assert(out[156] == 0x31u8);
    assert(fields.len() == 512);
    assert(out.take(148) =~= fields.take(148));
    assert(out.skip(156) =~= fields.skip(156));
    assert(out.subrange(148, 156) =~= octal_field(block_checksum(fields), 8));
    let zeros = Seq::new(11, |i: int| 0x30u8);
    let field = out.subrange(124, 136);
    assert forall|i: int| 0 <= i < 11 implies field[i] == 0x30u8 by {
        let p = pow8((12 - 2 - i) as nat);
        lemma_pow8_positive((12 - 2 - i) as nat);
        assert(0nat / p == 0) by (nonlinear_arith)
            requires
                p > 0,
        ;
    }
    assert(field.take(11) =~= zeros);
    lemma_until_zero(field, zeros);
    assert(without_leading(zeros) == zeros);
    assert(without_trailing(zeros) == zeros);
    lemma_zero_digits(11);
    assert(size_value(out) == Some(0nat));
    reveal_strlit("path");
    reveal_strlit("linkpath");
    reveal_strlit("size");
    reveal_strlit("uid");
    reveal_strlit("gid");
    assert("path"@[0] != "size"@[0]);
    assert("linkpath"@.len() == 8);
    lemma_hardlink_value(link, target, "size"@);
    lemma_hardlink_value(link, target, "uid"@);
    lemma_hardlink_value(link, target, "gid"@);
}

proof fn lemma_pow8_positive(e: nat)
    ensures
        pow8(e) > 0,
    decreases e,
{
    if e > 0 {
        lemma_pow8_positive((e - 1) as nat);
    }
}

/// A hard link has records of its path and target only.
proof fn lemma_hardlink_value(link: Seq<u8>, target: Seq<u8>, key: Seq<char>)
    requires
        key != "path"@,
        key != "linkpath"@,
    ensures
        pax_value(hardlink_pax(link, target), key) is None,
{
    reveal_with_fuel(pax_value, 3);
}

/// The records of a hard link are plain where its paths are free of line breaks.
proof fn lemma_hardlink_records_plain(link: Seq<u8>, target: Seq<u8>)
    requires
        link.len() > 100 ==> !link.contains(0x0au8),
        target.len() > 100 ==> !target.contains(0x0au8),
    ensures
        plain_records(hardlink_pax(link, target)),
{
    reveal_strlit("path");
    reveal_strlit("linkpath");
}

/// A header block without the path prefix that a USTAR header may hold.
fn without_prefix(block: &[u8; 512]) -> (r: [u8; 512])
    ensures
        r@ == unprefixed(block@),
        no_prefix(r@),
        same_but_path(r@, block@),
{
    let mut r: [u8; 512] = *block;
    let magic: [u8; 8] = [0x75, 0x73, 0x74, 0x61, 0x72, 0, 0x30, 0x30];
    let mut ustar = true;
    for i in 0..8usize
        invariant
            magic@ == seq![0x75u8, 0x73u8, 0x74u8, 0x61u8, 0x72u8, 0u8, 0x30u8, 0x30u8],
            ustar <==> forall|j: int| 0 <= j < i ==> block@[257 + j] == #[trigger] magic@[j],
    {
        if block[257 + i] != magic[i] {
            ustar = false;
        }
    }
    proof {
        let field = block@.subrange(257, 265);
        if ustar {
            assert forall|j: int| 0 <= j < 8 implies field[j] == magic@[j] by {}
            assert(field =~= magic@);
        } else {
            let j = choose|j: int| 0 <= j < 8 && block@[257 + j] != #[trigger] magic@[j];
            assert(field[j] != magic@[j]);
        }
        assert(ustar == is_ustar(block@));
    }
    if ustar {
        for i in 0..155usize
            invariant
                forall|j: int|
                    0 <= j < 512 ==> #[trigger] r@[j] == if 345 <= j < 345 + i {
                        0
                    } else {
                        block@[j]
                    },
        {
            r[345 + i] = 0;
        }
    }
    assert(r@ =~= unprefixed(block@));
    assert(r@.subrange(257, 265) =~= block@.subrange(257, 265));
    assert(r@.subrange(100, 148) =~= block@.subrange(100, 148));
    assert(r@.subrange(156, 345) =~= block@.subrange(156, 345));
    assert(r@.subrange(500, 512) =~= block@.subrange(500, 512));
    r
}

/// `block` with the hundred bytes from `at` on set to the first hundred of
/// `value`, with zeros behind them.
fn with_field(block: &[u8; 512], at: usize, value: &[u8]) -> (r: [u8; 512])
    requires
        at <= 412,
    ensures
        r@ == spliced(block@, at as int, field_bytes(value@, 100)),
{
    let mut r: [u8; 512] = *block;
    let ghost field = field_bytes(value@, 100);
    for i in 0..100usize
        invariant
            at <= 412,
            field == field_bytes(value@, 100),
            forall|j: int|
                0 <= j < 512 ==> #[trigger] r@[j] == if at <= j < at + i {
                    field[j - at]
                } else {
                    block@[j]
                },
    {
        if i < value.len() {
            r[at + i] = value[i];
        } else {
            r[at + i] = 0;
        }
    }
    assert(r@ =~= spliced(block@, at as int, field));
    r
}

/// The zeros that fill up the last block of content of the given length.
pub fn content_padding(len: u64) -> (r: Vec<u8>)
    ensures
        r@ == zeros(padding_len(len as nat)),
{
    let n: u64 = (512 - len % 512) % 512;
    let mut r: Vec<u8> = Vec::new();
    for i in 0..n
        invariant
            r@ == zeros(i as nat),
    {
        r.push(0);
        assert(r@ =~= zeros((i + 1) as nat));
    }
    r
}

// ── Laws ────────────────────────────────────────────────────────────────────

/// An entry can be written piece by piece: first as one without content, then
/// the content, then the zeros that fill up its last block.
pub proof fn law_entry_can_be_streamed(h: HeaderView, path: Seq<char>, data: Seq<u8>)
    ensures
        entry_bytes(h, path, data) is Some <==> entry_bytes(h, path, Seq::empty()) is Some,
        entry_bytes(h, path, data) is Some ==> entry_bytes(h, path, data)->Some_0 == entry_bytes(
            h,
            path,
            Seq::empty(),
        )->Some_0 + data + zeros(padding_len(data.len())),
{
    if let Some(head) = entry_head(unprefixed(h.block), path) {
        assert(padded(Seq::empty()) =~= Seq::<u8>::empty());
        assert(entry_bytes(h, path, data)->Some_0 =~= entry_bytes(
            h,
            path,
            Seq::empty(),
        )->Some_0 + data + zeros(padding_len(data.len())));
    }
}

proof fn lemma_until_zero(field: Seq<u8>, value: Seq<u8>)
    requires
        value.len() <= field.len(),
        field.take(value.len() as int) == value,
        !value.contains(0u8),
        value.len() < field.len() ==> field[value.len() as int] == 0,
    ensures
        until_zero(field) == value,
    decreases value.len(),
{
    if value.len() == 0 {
        assert(value =~= Seq::empty());
    } else {
        assert(value[0] == field.take(value.len() as int)[0]);
        assert(value[0] != 0);
        let rest = value.drop_first();
        assert(field.drop_first().take(rest.len() as int) =~= rest) by {
            assert forall|i: int| 0 <= i < rest.len() implies field.drop_first().take(
                rest.len() as int,
            )[i] == rest[i] by {
                assert(field.take(value.len() as int)[i + 1] == value[i + 1]);
            }
        }
        assert(!rest.contains(0u8)) by {
            if rest.contains(0u8) {
                let i = choose|i: int| 0 <= i < rest.len() && rest[i] == 0u8;
                assert(value[i + 1] == 0u8);
            }
        }
        lemma_until_zero(field.drop_first(), rest);
        assert(seq![field[0]] + rest =~= value);
    }
}

/// A hard link that was written names its target in full, however long the
/// target is. A zero byte ends the header field, so a target that goes there
/// holds none.
pub proof fn law_hardlink_target_kept(h: HeaderView, link: Seq<u8>, target: Seq<u8>)
    requires
        h.block.len() == 512,
        target.len() > 0,
        target.len() <= 100 ==> !target.contains(0u8),
    ensures
        link_name_of(as_hardlink(h, link, target)) == Some(target),
{
    reveal_strlit("path");
    reveal_strlit("linkpath");
    assert("path"@ != "linkpath"@) by {
        assert("path"@.len() != "linkpath"@.len());
    }
    let out = as_hardlink(h, link, target);
    let pax = hardlink_pax(link, target);
    if target.len() > 100 {
        if link.len() > 100 {
            assert(pax[0] == ("path"@, link));
            assert(pax.drop_first() =~= seq![("linkpath"@, target)]);
            assert(pax_value(pax.drop_first(), "linkpath"@) == Some(target));
        } else {
            assert(pax =~= seq![("linkpath"@, target)]);
        }
    } else {
        if link.len() > 100 {
            assert(pax =~= seq![("path"@, link)]);
            assert(pax.drop_first() =~= Seq::empty());
            assert(pax_value(pax.drop_first(), "linkpath"@) is None);
        } else {
            assert(pax =~= Seq::empty());
        }
        let field = out.block.subrange(157, 257);
        assert(field =~= field_bytes(target, 100));
        assert(field.take(target.len() as int) =~= target);
        assert(target[0] != 0);
        assert(out.block[157] == target[0]) by {
            assert(field[0] == target[0]);
        }
        lemma_until_zero(field, target);
    }
}

/// A hard link that was written keeps its path in full, however long the path
/// is. A zero byte ends the header field, so a path that goes there holds none.
pub proof fn law_hardlink_path_kept(h: HeaderView, link: Seq<u8>, target: Seq<u8>)
    requires
        h.block.len() == 512,
        link.len() <= 100 ==> !link.contains(0u8),
    ensures
        header_path_of(as_hardlink(h, link, target)) == link,
{
    reveal_strlit("path");
    reveal_strlit("linkpath");
    assert("path"@ != "linkpath"@) by {
        assert("path"@.len() != "linkpath"@.len());
    }
    let out = as_hardlink(h, link, target);
    let pax = hardlink_pax(link, target);
    if link.len() > 100 {
        assert(pax[0] == ("path"@, link));
    } else {
        if target.len() > 100 {
            assert(pax =~= seq![("linkpath"@, target)]);
            assert(pax.drop_first() =~= Seq::empty());
            assert(pax_value(pax.drop_first(), "path"@) is None);
        } else {
            assert(pax =~= Seq::empty());
        }
        let field = out.block.subrange(0, 100);
        assert(field =~= field_bytes(link, 100));
        assert(field.take(link.len() as int) =~= link);
        lemma_until_zero(field, link);
        let prefix = out.block.subrange(345, 500);
        assert(out.block.subrange(257, 265) =~= h.block.subrange(257, 265));
        if is_ustar(h.block) {
            assert(prefix[0] == 0);
            assert(until_zero(prefix) =~= Seq::empty());
        }
    }
}

/// A hard link that was written has the type of a hard link and no content, and
/// keeps mode, owner, group and time of the header that it was made from, and
/// the names and device numbers in it.
pub proof fn law_hardlink_keeps_metadata(h: HeaderView, link: Seq<u8>, target: Seq<u8>)
    requires
        h.block.len() == 512,
    ensures
        type_of(as_hardlink(h, link, target)) == EntryType::Link,
        as_hardlink(h, link, target).block.len() == 512,
        as_hardlink(h, link, target).block.subrange(100, 124) == h.block.subrange(100, 124),
        as_hardlink(h, link, target).block.subrange(124, 136) == octal_field(0, 12),
        as_hardlink(h, link, target).block.subrange(136, 148) == h.block.subrange(136, 148),
        as_hardlink(h, link, target).block.subrange(257, 345) == h.block.subrange(257, 345),
{
    let out = as_hardlink(h, link, target).block;
    assert(out.subrange(100, 124) =~= h.block.subrange(100, 124));
    assert(out.subrange(124, 136) =~= octal_field(0, 12));
    assert(out.subrange(136, 148) =~= h.block.subrange(136, 148));
    assert(out.subrange(257, 345) =~= h.block.subrange(257, 345));
}

proof fn lemma_regular_pax(pax: Seq<(Seq<char>, Seq<u8>)>, key: Seq<char>)
    ensures
        stays_regular(key) ==> pax_value(regular_pax(pax), key) == pax_value(pax, key),
        !stays_regular(key) ==> pax_value(regular_pax(pax), key) is None,
    decreases pax.len(),
{
    if pax.len() > 0 {
        lemma_regular_pax(pax.drop_last(), key);
        lemma_pax_value_push(pax.drop_last(), pax.last(), key);
        assert(pax.drop_last().push(pax.last()) =~= pax);
        lemma_pax_value_push(regular_pax(pax.drop_last()), pax.last(), key);
    }
}

proof fn lemma_pax_value_push(
    pax: Seq<(Seq<char>, Seq<u8>)>,
    x: (Seq<char>, Seq<u8>),
    key: Seq<char>,
)
    ensures
        pax_value(pax.push(x), key) == match pax_value(pax, key) {
            Some(v) => Some(v),
            None => if x.0 == key {
                Some(x.1)
            } else {
                None
            },
        },
    decreases pax.len(),
{
    if pax.len() == 0 {
        assert(pax_value(pax.push(x).drop_first(), key) is None);
    } else {
        lemma_pax_value_push(pax.drop_first(), x, key);
        assert(pax.push(x).drop_first() =~= pax.drop_first().push(x));
    }
}

/// A header made regular is of a regular file, has no record of a path, a link
/// target or a sparse map, and keeps every other record and the whole block but
/// for the type.
pub proof fn law_regular_keeps_metadata(h: HeaderView, key: Seq<char>)
    requires
        h.block.len() == 512,
    ensures
        type_of(as_regular(h)) == EntryType::Regular,
        stays_regular(key) ==> pax_value(as_regular(h).pax, key) == pax_value(h.pax, key),
        !stays_regular(key) ==> pax_value(as_regular(h).pax, key) is None,
        as_regular(h).block.take(156) == h.block.take(156),
        as_regular(h).block.skip(157) == h.block.skip(157),
{
    lemma_regular_pax(h.pax, key);
    assert(as_regular(h).block.take(156) =~= h.block.take(156));
    assert(as_regular(h).block.skip(157) =~= h.block.skip(157));
}

proof fn lemma_records_captured(pax: Seq<(Seq<char>, Seq<u8>)>)
    ensures
        captured_pax(read_records(pax)) == Ok::<Seq<(Seq<char>, Seq<u8>)>, HeaderError>(pax),
    decreases pax.len(),
{
    if pax.len() == 0 {
        assert(pax =~= Seq::empty());
    } else {
        lemma_records_captured(pax.drop_last());
        encode_utf8_valid_utf8(pax.last().0);
        encode_utf8_decode_utf8(pax.last().0);
        assert(read_records(pax).drop_last() =~= read_records(pax.drop_last()));
        assert(pax.drop_last().push(pax.last()) =~= pax);
    }
}

/// An entry that was written and read again is captured with the records, the
/// type and the link target of the header that it was written with.
pub proof fn law_written_entry_is_captured(
    e: EntryView,
    h: HeaderView,
    path: Seq<char>,
    data: Seq<u8>,
)
    requires
        h.block.len() == 512,
        shows_entry(e, h, path, data),
    ensures
        captured(e) is Ok,
        captured(e)->Ok_0.pax == h.pax,
        type_of(captured(e)->Ok_0) == type_of(h),
        link_name_of(captured(e)->Ok_0) == link_name_of(h),
{
    lemma_records_captured(h.pax);
    lemma_overridden(h.block, h.block, h.pax);
    let (a, b) = (e.header.subrange(156, 345), h.block.subrange(156, 345));
    assert(a[0] == e.header[156] && b[0] == h.block[156]);
    assert(a[1] == e.header[157] && b[1] == h.block[157]);
    assert(a.subrange(1, 101) =~= e.header.subrange(157, 257));
    assert(b.subrange(1, 101) =~= h.block.subrange(157, 257));
}

/// A hard link that was written and read again is captured as a hard link at
/// its path to its target. A target in the header field holds no zero byte.
pub proof fn law_written_hardlink_is_captured(h: HeaderView, link: Seq<char>, target: Seq<char>)
    requires
        h.block.len() == 512,
        hardlink_readable(link, target),
        encode_utf8(target).len() > 0,
        encode_utf8(target).len() <= 100 ==> !encode_utf8(target).contains(0u8),
    ensures
        captured(hardlink_seen(h, link, target)) is Ok,
        type_of(captured(hardlink_seen(h, link, target))->Ok_0) == EntryType::Link,
        header_path_of(captured(hardlink_seen(h, link, target))->Ok_0) == encode_utf8(link),
        link_name_of(captured(hardlink_seen(h, link, target))->Ok_0) == Some(encode_utf8(target)),
{
    let (l, t) = (encode_utf8(link), encode_utf8(target));
    lemma_records_captured(hardlink_pax(l, t));
    law_hardlink_keeps_metadata(h, l, t);
    law_hardlink_path_kept(h, l, t);
    law_hardlink_target_kept(h, l, t);
}

/// The value of a key is that of the first record with it.
pub proof fn law_first_record_counts(pax: Seq<(Seq<char>, Seq<u8>)>, key: Seq<char>, n: int)
    requires
        0 <= n <= pax.len(),
        forall|i: int| 0 <= i < n ==> (#[trigger] pax[i]).0 != key,
    ensures
        n == pax.len() ==> pax_value(pax, key) is None,
        n < pax.len() && pax[n].0 == key ==> pax_value(pax, key) == Some(pax[n].1),
    decreases n,
{
    if n > 0 {
        assert(pax[0].0 != key);
        let rest = pax.drop_first();
        assert forall|i: int| 0 <= i < n - 1 implies (#[trigger] rest[i]).0 != key by {
            assert(rest[i] == pax[i + 1]);
        }
        law_first_record_counts(rest, key, n - 1);
        if n < pax.len() {
            assert(rest[n - 1] == pax[n]);
        }
    }
}

/// The records take precedence over the header fields: the first `path` record
/// is the path and the first `linkpath` record the link target. Without them the
/// fields count.
pub proof fn law_records_take_precedence(h: HeaderView, n: int, m: int)
    requires
        0 <= n <= h.pax.len(),
        0 <= m <= h.pax.len(),
        forall|i: int| 0 <= i < n ==> (#[trigger] h.pax[i]).0 != "path"@,
        forall|i: int| 0 <= i < m ==> (#[trigger] h.pax[i]).0 != "linkpath"@,
    ensures
        n < h.pax.len() && h.pax[n].0 == "path"@ ==> header_path_of(h) == h.pax[n].1,
        n == h.pax.len() ==> header_path_of(h) == block_path(h.block),
        m < h.pax.len() && h.pax[m].0 == "linkpath"@ ==> link_name_of(h) == Some(h.pax[m].1),
        m == h.pax.len() ==> link_name_of(h) == block_link_name(h.block),
{
    law_first_record_counts(h.pax, "path"@, n);
    law_first_record_counts(h.pax, "linkpath"@, m);
}

/// The records that a regular file keeps are, in order, all but those of a path,
/// a link target or a sparse map.
pub proof fn law_regular_drops_paths_and_sparse_maps(pax: Seq<(Seq<char>, Seq<u8>)>)
    ensures
        regular_pax(pax) == pax.filter(
            |x: (Seq<char>, Seq<u8>)|
                x.0 != "path"@ && x.0 != "linkpath"@ && !"GNU.sparse."@.is_prefix_of(x.0),
        ),
    decreases pax.len(),
{
    reveal(Seq::filter);
    if pax.len() > 0 {
        law_regular_drops_paths_and_sparse_maps(pax.drop_last());
    }
}

/// Whether a record can be captured: it is one, and its key is UTF-8.
pub open spec fn is_whole(record: Option<(Seq<u8>, Seq<u8>)>) -> bool {
    record matches Some(r) && valid_utf8(r.0)
}

/// The header of an entry is captured exactly when all of its records can be,
/// and then it has the entry's block, and its records one for one: the key as
/// text and the value as it is.
pub proof fn law_captured_header_is_that_of_the_entry(e: EntryView)
    ensures
        captured(e) is Ok <==> forall|i: int| 0 <= i < e.pax.len() ==> is_whole(
            #[trigger] e.pax[i],
        ),
        captured(e) matches Ok(h) ==> h.block == e.header && h.pax.len() == e.pax.len() && forall|
            i: int,
        |
            0 <= i < e.pax.len() ==> encode_utf8((#[trigger] h.pax[i]).0) == e.pax[i]->Some_0.0
                && h.pax[i].1 == e.pax[i]->Some_0.1,
{
    lemma_captured_records(e.pax);
}

proof fn lemma_captured_records(records: Seq<Option<(Seq<u8>, Seq<u8>)>>)
    ensures
        captured_pax(records) is Ok <==> forall|i: int| 0 <= i < records.len() ==> is_whole(
            #[trigger] records[i],
        ),
        captured_pax(records) matches Ok(pax) ==> pax.len() == records.len() && forall|i: int|
            0 <= i < records.len() ==> encode_utf8((#[trigger] pax[i]).0) == records[i]->Some_0.0
                && pax[i].1 == records[i]->Some_0.1,
    decreases records.len(),
{
    if records.len() > 0 {
        let rest = records.drop_last();
        let last = records.len() - 1;
        lemma_captured_records(rest);
        assert forall|i: int| 0 <= i < rest.len() implies rest[i] == #[trigger] records[i] by {}
        if is_whole(records[last]) {
            decode_utf8_encode_utf8(records[last]->Some_0.0);
        }
        if captured_pax(records) is Ok {
            assert forall|i: int| 0 <= i < records.len() implies is_whole(
                #[trigger] records[i],
            ) by {
                if i < last {
                    assert(is_whole(rest[i]));
                }
            }
        }
        if forall|i: int| 0 <= i < records.len() ==> is_whole(#[trigger] records[i]) {
            assert forall|i: int| 0 <= i < rest.len() implies is_whole(#[trigger] rest[i]) by {
                assert(is_whole(records[i]));
            }
            assert(is_whole(records[last]));
        }
    }
}

/// The first record that cannot be captured is the error.
pub proof fn law_first_bad_record_is_the_error(e: EntryView, n: int)
    requires
        0 <= n < e.pax.len(),
        forall|i: int| 0 <= i < n ==> is_whole(#[trigger] e.pax[i]),
        !is_whole(e.pax[n]),
    ensures
        captured(e) == Err::<HeaderView, HeaderError>(
            if e.pax[n] is None {
                HeaderError::MalformedPax
            } else {
                HeaderError::PaxKeyNotUtf8
            },
        ),
{
    let before = e.pax.take(n);
    lemma_captured_records(before);
    assert forall|i: int| 0 <= i < before.len() implies is_whole(#[trigger] before[i]) by {
        assert(is_whole(e.pax[i]));
    }
    assert(e.pax.take(n + 1).drop_last() =~= before);
    assert(e.pax.take(n + 1).last() == e.pax[n]);
    lemma_captured_fault(e.pax, n + 1);
}

/// A hard link that was written has records only for what does not fit its
/// header field, no path prefix of its own, and the rest of the block as it was.
pub proof fn law_hardlink_is_plain_where_it_can_be(h: HeaderView, link: Seq<u8>, target: Seq<u8>)
    requires
        h.block.len() == 512,
    ensures
        as_hardlink(h, link, target).pax.len() == (if link.len() > 100 {
            1int
        } else {
            0
        }) + (if target.len() > 100 {
            1int
        } else {
            0
        }),
        is_ustar(h.block) ==> as_hardlink(h, link, target).block.subrange(345, 500) == zeros(155),
        !is_ustar(h.block) ==> as_hardlink(h, link, target).block.subrange(345, 500)
            == h.block.subrange(345, 500),
        as_hardlink(h, link, target).block.subrange(500, 512) == h.block.subrange(500, 512),
        has_checksum(as_hardlink(h, link, target).block),
{
    let fields = hardlink_fields(h.block, link, target);
    let out = checksummed(fields);
    if is_ustar(h.block) {
        assert(out.subrange(345, 500) =~= zeros(155));
    } else {
        assert(out.subrange(345, 500) =~= h.block.subrange(345, 500));
    }
    assert(out.subrange(500, 512) =~= h.block.subrange(500, 512));
    assert(fields.len() == 512);
    assert(out.take(148) =~= fields.take(148));
    assert(out.skip(156) =~= fields.skip(156));
    assert(out.subrange(148, 156) =~= octal_field(block_checksum(fields), 8));
}

} // verus!
