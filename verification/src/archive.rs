//! Tar archives as plain values, and the calls into the `tar` crate.
//!
//! Reading turns an archive into [`TarEntry`] values. Writing turns one entry
//! at a time into the bytes that stand for it in an archive, so that an archive
//! is its entries' bytes one after the other, and [`archive_end`] behind them.

use crate::path::names;
use crate::text::lossy_text;
use vstd::prelude::*;
use vstd::utf8::encode_utf8;

verus! {

/// `std::io::Error` is carried as it came.
#[verifier::external_type_specification]
#[verifier::external_body]
pub struct ExIoError(std::io::Error);

// ── Entries ─────────────────────────────────────────────────────────────────

/// One extended header record as the archive gave it.
pub enum PaxRecord {
    /// A key and a value.
    Pair { key: Vec<u8>, value: Vec<u8> },
    /// A line that is not a record.
    Malformed,
}

impl View for PaxRecord {
    type V = Option<(Seq<u8>, Seq<u8>)>;

    open spec fn view(&self) -> Option<(Seq<u8>, Seq<u8>)> {
        match self {
            PaxRecord::Pair { key, value } => Some((key@, value@)),
            PaxRecord::Malformed => None,
        }
    }
}

/// One entry of a tar archive.
pub struct TarEntry {
    /// The path, with long names resolved.
    pub path: Vec<u8>,
    /// The header block.
    pub header: [u8; 512],
    /// The extended header records, in order.
    pub pax: Vec<PaxRecord>,
    /// The content.
    pub data: Vec<u8>,
}

/// The values of a [`TarEntry`].
#[verifier::ext_equal]
pub struct EntryView {
    pub path: Seq<u8>,
    pub header: Seq<u8>,
    pub pax: Seq<Option<(Seq<u8>, Seq<u8>)>>,
    pub data: Seq<u8>,
}

impl View for TarEntry {
    type V = EntryView;

    open spec fn view(&self) -> EntryView {
        EntryView {
            path: self.path@,
            header: self.header@,
            pax: Seq::new(self.pax@.len(), |i: int| self.pax@[i]@),
            data: self.data@,
        }
    }
}

/// The values of a sequence of entries.
pub open spec fn entry_views(v: Seq<TarEntry>) -> Seq<EntryView> {
    Seq::new(v.len(), |i: int| v[i]@)
}

/// What reading an archive yields.
#[verifier::ext_equal]
pub struct ArchiveView {
    /// The entries up to the end, or up to where reading fails.
    pub entries: Seq<EntryView>,
    /// Whether the end was reached.
    pub complete: bool,
}

/// Whether the block at `i` looks like the header of a sparse file of the GNU
/// format whose map goes on in further blocks.
pub open spec fn sparse_at(archive: Seq<u8>, i: int) -> bool {
    &&& 0 <= i && i % 512 == 0 && i + 512 <= archive.len()
    &&& archive[i + 156] == 0x53
    &&& is_gnu(archive.subrange(i, i + 512))
    &&& archive[i + 482] == 1
}

/// Whether the size field of the header block at `i` is binary with a value of
/// 2 to the power of 63 or more.
pub open spec fn huge_size_at(archive: Seq<u8>, i: int) -> bool {
    archive[i + 124] >= 0x80 && archive[i + 128] >= 0x80
}

/// Whether 19 digits start at `p`.
pub open spec fn many_digits_at(archive: Seq<u8>, p: int) -> bool {
    &&& 0 <= p && p + 19 <= archive.len()
    &&& forall|j: int| p <= j < p + 19 ==> 0x30 <= #[trigger] archive[j] <= 0x39
}

/// Whether what starts at `p` looks like a record of a size of 19 digits or more.
pub open spec fn huge_record_at(archive: Seq<u8>, p: int) -> bool {
    &&& 0 <= p && p + 6 <= archive.len()
    &&& archive.subrange(p, p + 6) == seq![0x20u8, 0x73u8, 0x69u8, 0x7au8, 0x65u8, 0x3du8]
    &&& many_digits_at(archive, p + 6) || (p + 6 < archive.len() && archive[p + 6] == 0x2b
        && many_digits_at(archive, p + 7))
}

/// Whether an archive may hold a sparse file whose size no position behind it can
/// be counted with.
pub open spec fn oversized(archive: Seq<u8>) -> bool {
    exists|i: int| #[trigger]
        sparse_at(archive, i) && (huge_size_at(archive, i) || exists|p: int| #[trigger]
            huge_record_at(archive, p))
}

fn starts_many_digits(archive: &[u8], p: usize) -> (r: bool)
    requires
        p <= archive@.len(),
    ensures
        r == many_digits_at(archive@, p as int),
{
    if archive.len() - p < 19 {
        return false;
    }
    for j in 0..19usize
        invariant
            p + 19 <= archive.len(),
            forall|k: int| p <= k < p + j ==> 0x30 <= #[trigger] archive@[k] <= 0x39,
    {
        if archive[p + j] < 0x30 || archive[p + j] > 0x39 {
            assert(!(0x30 <= archive@[p + j] <= 0x39));
            return false;
        }
    }
    true
}

fn starts_huge_record(archive: &[u8], p: usize) -> (r: bool)
    requires
        p <= archive@.len(),
    ensures
        r == huge_record_at(archive@, p as int),
{
    if archive.len() - p < 6 {
        return false;
    }
    let ghost mark = seq![0x20u8, 0x73u8, 0x69u8, 0x7au8, 0x65u8, 0x3du8];
    let ghost here = archive@.subrange(p as int, p + 6);
    proof {
        assert(here[0] == archive@[p as int] && here[1] == archive@[p + 1] && here[2]
            == archive@[p + 2] && here[3] == archive@[p + 3] && here[4] == archive@[p + 4]
            && here[5] == archive@[p + 5]);
    }
    if archive[p] != 0x20 || archive[p + 1] != 0x73 || archive[p + 2] != 0x69 || archive[p + 3]
        != 0x7a || archive[p + 4] != 0x65 || archive[p + 5] != 0x3d {
        assert(here != mark) by {
            assert(mark[0] == 0x20 && mark[1] == 0x73 && mark[2] == 0x69 && mark[3] == 0x7a
                && mark[4] == 0x65 && mark[5] == 0x3d);
        }
        return false;
    }
    assert(here =~= mark);
    starts_many_digits(archive, p + 6) || (p + 6 < archive.len() && archive[p + 6] == 0x2b
        && starts_many_digits(archive, p + 7))
}

fn holds_huge_record(archive: &[u8]) -> (r: bool)
    ensures
        r <==> exists|p: int| #[trigger] huge_record_at(archive@, p),
{
    for p in 0..archive.len()
        invariant
            forall|q: int| q < p ==> !#[trigger] huge_record_at(archive@, q),
    {
        if starts_huge_record(archive, p) {
            return true;
        }
    }
    false
}

fn is_sparse_at(archive: &[u8], i: usize) -> (r: bool)
    requires
        i % 512 == 0,
        i + 512 <= archive@.len(),
    ensures
        r == sparse_at(archive@, i as int),
{
    if archive[i + 156] != 0x53 || archive[i + 482] != 1 {
        return false;
    }
    let ghost mark = seq![0x75u8, 0x73u8, 0x74u8, 0x61u8, 0x72u8, 0x20u8, 0x20u8, 0u8];
    let ghost here = archive@.subrange(i as int, i + 512).subrange(257, 265);
    let magic: [u8; 8] = [0x75, 0x73, 0x74, 0x61, 0x72, 0x20, 0x20, 0];
    assert(magic@ =~= mark);
    for j in 0..8usize
        invariant
            i + 512 <= archive.len(),
            magic@ == mark,
            here == archive@.subrange(i as int, i + 512).subrange(257, 265),
            forall|k: int| 0 <= k < j ==> here[k] == #[trigger] mark[k],
            mark.len() == 8,
            is_gnu(archive@.subrange(i as int, i + 512)) == (here == mark),
    {
        assert(here[j as int] == archive@[i + 257 + j]);
        if archive[i + 257 + j] != magic[j] {
            assert(here[j as int] != mark[j as int]);
            return false;
        }
    }
    assert(here =~= mark);
    true
}

/// Whether an archive may hold a sparse file whose size no position behind it can
/// be counted with.
pub(crate) fn is_oversized(archive: &[u8]) -> (r: bool)
    ensures
        r == oversized(archive@),
{
    let mut i: usize = 0;
    let mut sparse = false;
    while archive.len() - i >= 512
        invariant
            i <= archive@.len(),
            i % 512 == 0,
            sparse <==> exists|k: int| k < i && #[trigger] sparse_at(archive@, k),
            forall|k: int| k < i && #[trigger] sparse_at(archive@, k) ==> !huge_size_at(archive@, k),
        decreases archive@.len() - i,
    {
        if is_sparse_at(archive, i) {
            if archive[i + 124] >= 0x80 && archive[i + 128] >= 0x80 {
                assert(sparse_at(archive@, i as int) && huge_size_at(archive@, i as int));
                return true;
            }
            sparse = true;
            assert(sparse_at(archive@, i as int));
        }
        i = i + 512;
    }
    proof {
        assert forall|k: int| #[trigger] sparse_at(archive@, k) implies k < i by {}
    }
    sparse && holds_huge_record(archive)
}

/// What `tar::Archive::entries` yields of an archive.
pub uninterp spec fn archive_entries(archive: Seq<u8>) -> ArchiveView;

/// Calls `tar::Archive::entries` and puts each entry's path, header block,
/// extended header records and content behind `entries`, until the end or the
/// first failure. Claims only that the outcome depends on the bytes alone. Behind
/// a sparse file of a size of nearly 2 to the power of 64 the position overflows,
/// which is left out.
#[verifier::external_body]
pub(crate) fn read_archive(archive: &[u8], entries: &mut Vec<TarEntry>) -> (r: Result<
    (),
    std::io::Error,
>)
    requires
        !oversized(archive@),
    ensures
        entry_views(final(entries)@) == entry_views(old(entries)@) + archive_entries(
            archive@,
        ).entries,
        r is Ok <==> archive_entries(archive@).complete,
{
    for entry in tar::Archive::new(archive).entries()? {
        let mut entry = entry?;
        let (path, header) = (entry.path_bytes().into_owned(), *entry.header().as_bytes());
        let (mut pax, mut data) = (Vec::new(), Vec::new());
        for record in entry.pax_extensions()?.into_iter().flatten() {
            pax.push(match record {
                Ok(r) => PaxRecord::Pair { key: r.key_bytes().to_vec(), value: r.value_bytes().to_vec() },
                Err(_) => PaxRecord::Malformed,
            });
        }
        std::io::Read::read_to_end(&mut entry, &mut data)?;
        entries.push(TarEntry { path, header, pax, data });
    }
    Ok(())
}

// ── Header blocks ───────────────────────────────────────────────────────────

/// `field` up to its first zero byte.
pub open spec fn until_zero(field: Seq<u8>) -> Seq<u8>
    decreases field.len(),
{
    if field.len() == 0 || field[0] == 0 {
        Seq::empty()
    } else {
        seq![field[0]] + until_zero(field.drop_first())
    }
}

/// Whether the block has the magic and version of the USTAR format.
pub open spec fn is_ustar(block: Seq<u8>) -> bool {
    block.subrange(257, 265) == seq![0x75u8, 0x73u8, 0x74u8, 0x61u8, 0x72u8, 0u8, 0x30u8, 0x30u8]
}

/// Whether the block has the magic and version of the GNU format.
pub open spec fn is_gnu(block: Seq<u8>) -> bool {
    block.subrange(257, 265) == seq![0x75u8, 0x73u8, 0x74u8, 0x61u8, 0x72u8, 0x20u8, 0x20u8, 0u8]
}

/// The path in a header block: the name field, behind the prefix field and a
/// slash where the format is USTAR and the prefix is not empty.
pub open spec fn block_path(block: Seq<u8>) -> Seq<u8> {
    let name = until_zero(block.subrange(0, 100));
    let prefix = until_zero(block.subrange(345, 500));
    if is_ustar(block) && prefix.len() > 0 {
        prefix.push(0x2fu8) + name
    } else {
        name
    }
}

/// Calls `tar::Header::path_bytes`. Claims that the path is the name field up
/// to its first zero byte, behind the prefix field of a USTAR header.
#[verifier::external_body]
pub(crate) fn header_path(block: &[u8; 512]) -> (r: Vec<u8>)
    ensures
        r@ == block_path(block@),
{
    tar::Header::from_byte_slice(block).path_bytes().into_owned()
}

/// The link target in a header block: the linkname field up to its first zero
/// byte, or `None` where the field starts with one.
pub open spec fn block_link_name(block: Seq<u8>) -> Option<Seq<u8>> {
    if block[157] == 0 {
        None
    } else {
        Some(until_zero(block.subrange(157, 257)))
    }
}

/// Calls `tar::Header::link_name_bytes`. Claims that the target is the linkname
/// field up to its first zero byte, and absent where that byte comes first.
#[verifier::external_body]
pub(crate) fn header_link_name(block: &[u8; 512]) -> (r: Option<Vec<u8>>)
    ensures
        match r {
            Some(v) => block_link_name(block@) == Some(v@),
            None => block_link_name(block@) is None,
        },
{
    tar::Header::from_byte_slice(block).link_name_bytes().map(|v| v.into_owned())
}

/// `block` with `bytes` written over it from `at` on.
pub open spec fn spliced(block: Seq<u8>, at: int, bytes: Seq<u8>) -> Seq<u8> {
    block.take(at) + bytes + block.skip(at + bytes.len())
}

/// 8 to the power of `e`.
pub open spec fn pow8(e: nat) -> nat
    decreases e,
{
    if e == 0 {
        1
    } else {
        8 * pow8((e - 1) as nat)
    }
}

/// `value` as a numeric header field: octal digits, zeros before them, and a
/// zero byte at the end.
pub open spec fn octal_field(value: nat, width: nat) -> Seq<u8> {
    Seq::new(
        width,
        |i: int|
            if i == width - 1 {
                0u8
            } else {
                (48 + (value / pow8((width - 2 - i) as nat)) % 8) as u8
            },
    )
}

/// Calls `tar::Header::set_size`. Claims that the size field, twelve bytes from
/// 124 on, becomes the octal form of a size below 8 GiB, and nothing else
/// changes.
#[verifier::external_body]
pub(crate) fn with_size(block: &[u8; 512], size: u64) -> (r: [u8; 512])
    requires
        size < 0x2_0000_0000,
    ensures
        r@ == spliced(block@, 124, octal_field(size as nat, 12)),
{
    let mut header = tar::Header::from_byte_slice(block).clone();
    header.set_size(size);
    *header.as_bytes()
}

/// The sum of bytes.
pub open spec fn byte_sum(bytes: Seq<u8>) -> nat
    decreases bytes.len(),
{
    if bytes.len() == 0 {
        0
    } else {
        byte_sum(bytes.drop_last()) + bytes.last() as nat
    }
}

/// The checksum of a header block: the sum of its bytes, with the checksum
/// field taken as eight spaces.
pub open spec fn block_checksum(block: Seq<u8>) -> nat {
    byte_sum(block.take(148)) + 8 * 32 + byte_sum(block.skip(156))
}

/// `block` with its checksum field filled in.
pub open spec fn checksummed(block: Seq<u8>) -> Seq<u8> {
    spliced(block, 148, octal_field(block_checksum(block), 8))
}

/// Calls `tar::Header::set_cksum`. Claims that the checksum field, eight bytes
/// from 148 on, becomes the octal form of the block's checksum, and nothing
/// else changes.
#[verifier::external_body]
pub(crate) fn with_checksum(block: &[u8; 512]) -> (r: [u8; 512])
    ensures
        r@ == checksummed(block@),
{
    let mut header = tar::Header::from_byte_slice(block).clone();
    header.set_cksum();
    *header.as_bytes()
}

// ── Reading back ────────────────────────────────────────────────────────────

/// An archive with `seen` before its entries.
pub open spec fn after_entries(seen: Seq<EntryView>, archive: ArchiveView) -> ArchiveView {
    ArchiveView { entries: seen + archive.entries, ..archive }
}

/// An archive without entries.
pub open spec fn no_entries() -> ArchiveView {
    ArchiveView { entries: Seq::empty(), complete: true }
}

/// Whether `bytes` put before an archive add `seen` before its entries.
pub open spec fn reads(bytes: Seq<u8>, seen: Seq<EntryView>) -> bool {
    forall|rest: Seq<u8>|
        archive_entries(rest).complete ==> #[trigger] archive_entries(bytes + rest)
            == after_entries(seen, archive_entries(rest))
}

/// Whether a type byte is of an extended header or a long name.
pub open spec fn is_extension_type(byte: u8) -> bool {
    byte == 0x78 || byte == 0x67 || byte == 0x4c || byte == 0x4b
}

/// Whether a reader yields an entry with this header block, behind records or
/// none, rather than to resolve it. A sparse file is always resolved. An extended
/// header or a long name of a known format is, but for a global extended header.
/// An extended header that is yielded keeps its content only behind records of
/// its own; without them its content is read as records.
pub open spec fn stands_for_itself(
    block: Seq<u8>,
    pax: Seq<(Seq<char>, Seq<u8>)>,
    len: nat,
) -> bool {
    let kind = block[156];
    let known = is_ustar(block) || is_gnu(block);
    &&& kind != 0x53
    &&& kind == 0x4c || kind == 0x4b || kind == 0x78 ==> !known
    &&& kind == 0x78 || kind == 0x67 ==> pax.len() > 0 || len == 0
}

/// The value of digits in a number system, most significant first.
pub open spec fn digits_value(digits: Seq<u8>, base: nat) -> nat
    decreases digits.len(),
{
    if digits.len() == 0 {
        0
    } else {
        digits_value(digits.drop_last(), base) * base + (digits.last() - 0x30) as nat
    }
}

/// Whether bytes are digits below `base`.
pub open spec fn all_digits(digits: Seq<u8>, base: nat) -> bool {
    forall|i: int| 0 <= i < digits.len() ==> 0x30 <= #[trigger] digits[i] < 0x30 + base
}

/// The number that a text spells: digits below `base`, with or without a plus
/// sign before them. `None` where the text is something else, or the number does
/// not fit in 64 bits.
pub open spec fn spelled(text: Seq<u8>, base: nat) -> Option<nat> {
    let digits = if text.len() > 0 && text[0] == 0x2b {
        text.skip(1)
    } else {
        text
    };
    if digits.len() > 0 && all_digits(digits, base) && digits_value(digits, base) <= u64::MAX {
        Some(digits_value(digits, base))
    } else {
        None
    }
}

/// Whether a byte is white space in ASCII.
pub open spec fn is_space(byte: u8) -> bool {
    byte == 0x20 || 9 <= byte <= 13
}

/// A text without the white space at its start.
pub open spec fn without_leading(text: Seq<u8>) -> Seq<u8>
    decreases text.len(),
{
    if text.len() > 0 && is_space(text[0]) {
        without_leading(text.drop_first())
    } else {
        text
    }
}

/// A text without the white space at its end.
pub open spec fn without_trailing(text: Seq<u8>) -> Seq<u8>
    decreases text.len(),
{
    if text.len() > 0 && is_space(text.last()) {
        without_trailing(text.drop_last())
    } else {
        text
    }
}

/// The value of bytes as a binary number, most significant first.
pub open spec fn binary_value(bytes: Seq<u8>) -> nat
    decreases bytes.len(),
{
    if bytes.len() == 0 {
        0
    } else {
        binary_value(bytes.drop_last()) * 256 + bytes.last() as nat
    }
}

/// The value of the size field of a header block: binary in its last eight
/// bytes where its first bit is set, or else octal digits up to the first zero
/// byte, with or without white space around them.
pub open spec fn size_value(block: Seq<u8>) -> Option<nat> {
    let field = block.subrange(124, 136);
    if field[0] >= 0x80 {
        Some(binary_value(field.skip(4)))
    } else {
        spelled(without_trailing(without_leading(until_zero(field))), 8)
    }
}

/// The value of the first record with the given key as a decimal number.
pub open spec fn pax_number(pax: Seq<(Seq<char>, Seq<u8>)>, key: Seq<char>) -> Option<nat> {
    match pax_value(pax, key) {
        Some(v) => spelled(v, 10),
        None => None,
    }
}

/// 256 to the power of `e`.
pub open spec fn pow256(e: nat) -> nat
    decreases e,
{
    if e == 0 {
        1
    } else {
        256 * pow256((e - 1) as nat)
    }
}

/// A number as an eight-byte header field: octal where it fits, or else binary
/// with the first bit set.
pub open spec fn number_field(value: nat) -> Seq<u8> {
    if value < pow8(7) {
        octal_field(value, 8)
    } else {
        Seq::new(
            8,
            |i: int|
                {
                    let byte = (value / pow256((7 - i) as nat)) % 256;
                    if i == 0 && byte < 128 {
                        (byte + 128) as u8
                    } else {
                        byte as u8
                    }
                },
        )
    }
}

/// A header block behind records, as it is read: records of an owner and a group
/// take the place of the fields, but for extended headers and long names.
pub open spec fn overridden(block: Seq<u8>, pax: Seq<(Seq<char>, Seq<u8>)>) -> Seq<u8> {
    if is_extension_type(block[156]) {
        block
    } else {
        let owned = match pax_number(pax, "uid"@) {
            Some(n) => spliced(block, 108, number_field(n)),
            None => block,
        };
        match pax_number(pax, "gid"@) {
            Some(n) => spliced(owned, 116, number_field(n)),
            None => owned,
        }
    }
}

/// Whether a header block behind records is of an entry with `len` bytes of
/// content that stands for itself. A record of the size takes the place of the
/// field, but for extended headers and long names.
pub open spec fn heads_plain(block: Seq<u8>, pax: Seq<(Seq<char>, Seq<u8>)>, len: nat) -> bool {
    &&& block.len() == 512
    &&& stands_for_itself(block, pax, len)
    &&& size_value(block) is Some
    &&& match pax_number(pax, "size"@) {
        Some(n) if !is_extension_type(block[156]) => n == len,
        _ => size_value(block) == Some(len),
    }
}

/// Whether the checksum field of a header block holds its checksum.
pub open spec fn has_checksum(block: Seq<u8>) -> bool {
    block.subrange(148, 156) == octal_field(block_checksum(block), 8)
}

/// The value of the first record with the given key.
pub open spec fn pax_value(pax: Seq<(Seq<char>, Seq<u8>)>, key: Seq<char>) -> Option<Seq<u8>>
    decreases pax.len(),
{
    if pax.len() == 0 {
        None
    } else if pax[0].0 == key {
        Some(pax[0].1)
    } else {
        pax_value(pax.drop_first(), key)
    }
}

/// Whether a record can be told from the next one.
pub open spec fn is_plain_record(key: Seq<char>, value: Seq<u8>) -> bool {
    !key.contains('=') && !key.contains('\n') && !value.contains(0x0au8)
}

/// Whether all records are plain.
pub open spec fn plain_records(pax: Seq<(Seq<char>, Seq<u8>)>) -> bool {
    forall|i: int| 0 <= i < pax.len() ==> is_plain_record((#[trigger] pax[i]).0, pax[i].1)
}

/// Records as they are read.
pub open spec fn read_records(pax: Seq<(Seq<char>, Seq<u8>)>) -> Seq<
    Option<(Seq<u8>, Seq<u8>)>,
> {
    Seq::new(pax.len(), |i: int| Some((encode_utf8(pax[i].0), pax[i].1)))
}

/// The entry with a header block behind records, as it is read.
pub open spec fn entry_behind(
    pax: Seq<(Seq<char>, Seq<u8>)>,
    block: Seq<u8>,
    data: Seq<u8>,
) -> EntryView {
    EntryView {
        path: match pax_value(pax, "path"@) {
            Some(v) => v,
            None => block_path(block),
        },
        header: overridden(block, pax),
        pax: read_records(pax),
        data,
    }
}

/// Whether two header blocks agree but for the path and the checksum.
pub open spec fn same_but_path(a: Seq<u8>, b: Seq<u8>) -> bool {
    &&& a.len() == 512 && b.len() == 512
    &&& a.subrange(100, 148) == b.subrange(100, 148)
    &&& a.subrange(156, 345) == b.subrange(156, 345)
    &&& a.subrange(500, 512) == b.subrange(500, 512)
}

/// Whether a header block has no path prefix, which a short path would leave
/// there.
pub open spec fn no_prefix(block: Seq<u8>) -> bool {
    is_ustar(block) ==> block[345] == 0
}

/// Whether `e` is the entry at `path` behind records, of a header with the
/// metadata of `block`, with the given content.
pub open spec fn is_entry_at(
    e: EntryView,
    pax: Seq<(Seq<char>, Seq<u8>)>,
    block: Seq<u8>,
    path: Seq<char>,
    data: Seq<u8>,
) -> bool {
    &&& names(lossy_text(e.path)) == names(path) || pax_value(pax, "path"@) == Some(e.path)
    &&& same_but_path(e.header, overridden(block, pax))
    &&& e.pax == read_records(pax)
    &&& e.data == data
}

/// Whether `bytes` put before an archive add the entry at `path` behind records,
/// of a header with the metadata of `block`, with the given content.
pub open spec fn reads_entry(
    bytes: Seq<u8>,
    pax: Seq<(Seq<char>, Seq<u8>)>,
    block: Seq<u8>,
    path: Seq<char>,
    data: Seq<u8>,
) -> bool {
    exists|e: EntryView|
        #[trigger] reads(bytes, seq![e]) && is_entry_at(e, pax, block, path, data)
}

// ── Writing ─────────────────────────────────────────────────────────────────

/// How many zero bytes fill up the last block of `len` bytes.
pub open spec fn padding_len(len: nat) -> nat {
    ((512 - len % 512) % 512) as nat
}

/// `n` zero bytes.
pub open spec fn zeros(n: nat) -> Seq<u8> {
    Seq::new(n, |i: int| 0u8)
}

/// Content as it stands in an archive: filled up to whole blocks.
pub open spec fn padded(data: Seq<u8>) -> Seq<u8> {
    data + zeros(padding_len(data.len()))
}

/// What `tar::Builder::append_pax_extensions` writes for a list of records.
pub uninterp spec fn pax_member(records: Seq<(Seq<char>, Seq<u8>)>) -> Seq<u8>;

/// The values of a list of extended header records.
pub open spec fn record_views(v: Seq<(String, Vec<u8>)>) -> Seq<(Seq<char>, Seq<u8>)> {
    Seq::new(v.len(), |i: int| (v[i].0@, v[i].1@))
}

/// Calls `tar::Builder::append_pax_extensions` on a builder over a vector.
/// Claims that it succeeds there, since writing to a vector does, and that what
/// it writes depends on the records alone. Where the records are plain, an entry
/// that `tar::Builder::append` or `tar::Builder::append_data` writes behind it is
/// read back by `tar::Archive::entries` with these records. Those of a path, an
/// owner, a group and a size take the place of the header fields; a long name of
/// `append_data` takes the place of a record of the path.
#[verifier::external_body]
pub(crate) fn write_pax(records: &Vec<(String, Vec<u8>)>) -> (r: Result<Vec<u8>, std::io::Error>)
    ensures
        r is Ok && r->Ok_0@ == pax_member(record_views(records@)),
        plain_records(record_views(records@)) ==> forall|block: Seq<u8>, data: Seq<u8>|
            heads_plain(block, record_views(records@), data.len()) && has_checksum(block)
                ==> #[trigger] reads(
                r->Ok_0@ + (block + padded(data)),
                seq![entry_behind(record_views(records@), block, data)],
            ),
        plain_records(record_views(records@)) ==> forall|
            block: Seq<u8>,
            path: Seq<char>,
            data: Seq<u8>,
        |
            heads_plain(block, record_views(records@), data.len()) && no_prefix(block)
                && entry_head(block, path) is Some ==> #[trigger] reads_entry(
                r->Ok_0@ + (entry_head(block, path)->Some_0 + padded(data)),
                record_views(records@),
                block,
                path,
                data,
            ),
{
    let mut builder = tar::Builder::new(Vec::new());
    builder.append_pax_extensions(records.iter().map(|(k, v)| (k.as_str(), v.as_slice())))?;
    Ok(builder.get_ref().clone())
}

/// Calls `tar::Builder::append` on a builder over a vector. Claims that it
/// succeeds there and writes the header block, the content, and zeros up to a
/// whole block. Where the block heads a plain entry with this content and its
/// checksum is right, `tar::Archive::entries` reads that entry back.
#[verifier::external_body]
pub(crate) fn write_raw(block: &[u8; 512], data: &[u8]) -> (r: Result<Vec<u8>, std::io::Error>)
    ensures
        r is Ok && r->Ok_0@ == block@ + padded(data@),
        heads_plain(block@, Seq::empty(), data@.len()) && has_checksum(block@) ==> reads(
            r->Ok_0@,
            seq![entry_behind(Seq::empty(), block@, data@)],
        ),
{
    let mut builder = tar::Builder::new(Vec::new());
    builder.append(tar::Header::from_byte_slice(block), data)?;
    Ok(builder.get_ref().clone())
}

/// What `tar::Builder::append_data` writes before the content, for a header
/// block and a path, or `None` where it refuses the path.
pub uninterp spec fn entry_head(block: Seq<u8>, path: Seq<char>) -> Option<Seq<u8>>;

/// Calls `tar::Builder::append_data` on a builder over a vector. Claims that
/// the header block and the path alone decide whether it succeeds and what it
/// writes first; the content follows, and zeros up to a whole block. Where the
/// block heads a plain entry with this content and has no path prefix,
/// `tar::Archive::entries` reads the entry back: its path has the same names,
/// and the rest of the block and the content are the same.
#[verifier::external_body]
pub(crate) fn write_data(block: &[u8; 512], path: &str, data: &[u8]) -> (r: Result<
    Vec<u8>,
    std::io::Error,
>)
    ensures
        match r {
            Ok(v) => entry_head(block@, path@) matches Some(h) && v@ == h + padded(data@),
            Err(_) => entry_head(block@, path@) is None,
        },
        r matches Ok(v) ==> (heads_plain(block@, Seq::empty(), data@.len()) && no_prefix(block@)
            ==> reads_entry(v@, Seq::empty(), block@, path@, data@)),
{
    let mut builder = tar::Builder::new(Vec::new());
    let mut header = tar::Header::from_byte_slice(block).clone();
    builder.append_data(&mut header, path, data)?;
    Ok(builder.get_ref().clone())
}

/// Calls `tar::Builder::finish` on a builder over a vector that holds nothing
/// yet. Claims that it succeeds there and writes two blocks of zeros, which
/// `tar::Archive::entries` reads as an archive without entries.
#[verifier::external_body]
pub(crate) fn archive_end() -> (r: Result<Vec<u8>, std::io::Error>)
    ensures
        r is Ok && r->Ok_0@ == zeros(1024),
        r is Ok && archive_entries(r->Ok_0@) == no_entries(),
{
    let mut builder = tar::Builder::new(Vec::new());
    builder.finish()?;
    Ok(builder.get_ref().clone())
}

// ── Laws ────────────────────────────────────────────────────────────────────

/// Content is filled up with zeros to whole blocks, by less than one.
pub proof fn law_content_is_filled_up_to_whole_blocks(data: Seq<u8>)
    ensures
        padded(data).len() % 512 == 0,
        data.len() <= padded(data).len() < data.len() + 512,
        data.is_prefix_of(padded(data)),
        forall|i: int| data.len() <= i < padded(data).len() ==> #[trigger] padded(data)[i] == 0,
{
    assert(data =~= padded(data).subrange(0, data.len() as int));
}

/// An archive is read as it is unless it has a sparse file in the GNU format
/// whose map goes on, together with a size that is out of all proportion: the
/// first bit of a binary size field, or a record of 19 digits.
pub proof fn law_ordinary_archives_are_read(archive: Seq<u8>)
    ensures
        (forall|i: int|
            0 <= i && i % 512 == 0 && i + 512 <= archive.len() ==> #[trigger] archive[i + 156]
                != 0x53 || archive[i + 482] != 1) ==> !oversized(archive),
        (forall|i: int| 0 <= i < archive.len() ==> #[trigger] archive[i] < 0x80) && (forall|p: int|
            0 <= p && p + 6 <= archive.len() ==> #[trigger] archive.subrange(p, p + 6) != seq![
                0x20u8,
                0x73u8,
                0x69u8,
                0x7au8,
                0x65u8,
                0x3du8,
            ]) ==> !oversized(archive),
{
    if oversized(archive) {
        let i = choose|i: int| #[trigger]
            sparse_at(archive, i) && (huge_size_at(archive, i) || exists|p: int| #[trigger]
                huge_record_at(archive, p));
        assert(archive[i + 156] == 0x53);
        if huge_size_at(archive, i) {
            assert(archive[i + 124] >= 0x80);
        } else {
            let p = choose|p: int| #[trigger] huge_record_at(archive, p);
            assert(archive.subrange(p, p + 6) == seq![
                0x20u8,
                0x73u8,
                0x69u8,
                0x7au8,
                0x65u8,
                0x3du8,
            ]);
        }
    }
}

proof fn lemma_octal_digit(value: nat, k: nat)
    ensures
        value / pow8(k) == value / pow8((k + 1) as nat) * 8 + (value / pow8(k)) % 8,
{
    let p = pow8(k);
    lemma_pow8_is_positive(k);
    assert(pow8((k + 1) as nat) == 8 * p);
    assert(value / p == value / (8 * p) * 8 + (value / p) % 8) by {
        vstd::arithmetic::div_mod::lemma_div_denominator(value as int, p as int, 8);
        vstd::arithmetic::div_mod::lemma_fundamental_div_mod((value / p) as int, 8);
        vstd::arithmetic::mul::lemma_mul_is_commutative(8, p as int);
    }
}

proof fn lemma_pow8_is_positive(e: nat)
    ensures
        pow8(e) > 0,
    decreases e,
{
    if e > 0 {
        lemma_pow8_is_positive((e - 1) as nat);
    }
}

/// A numeric header field spells its number in octal digits and ends with a zero
/// byte.
pub proof fn law_octal_field_spells_its_number(value: nat, width: nat)
    requires
        width >= 1,
        value < pow8((width - 1) as nat),
    ensures
        octal_field(value, width).len() == width,
        octal_field(value, width).last() == 0,
        all_digits(octal_field(value, width).drop_last(), 8),
        digits_value(octal_field(value, width).drop_last(), 8) == value,
{
    let digits = octal_field(value, width).drop_last();
    lemma_octal_prefix(value, width, (width - 1) as nat);
    assert(digits.take(width - 1) =~= digits);
    assert(pow8(0) == 1);
    vstd::arithmetic::div_mod::lemma_div_basics(value as int);
}

proof fn lemma_octal_prefix(value: nat, width: nat, n: nat)
    requires
        n <= width - 1,
        value < pow8((width - 1) as nat),
    ensures
        digits_value(octal_field(value, width).take(n as int), 8) == value / pow8(
            (width - 1 - n) as nat,
        ),
    decreases n,
{
    let t = octal_field(value, width).take(n as int);
    lemma_pow8_is_positive((width - 1) as nat);
    if n == 0 {
        vstd::arithmetic::div_mod::lemma_basic_div(value as int, pow8((width - 1) as nat) as int);
    } else {
        lemma_octal_prefix(value, width, (n - 1) as nat);
        let k = (width - 1 - n) as nat;
        lemma_octal_digit(value, k);
        assert(t.drop_last() =~= octal_field(value, width).take(n - 1));
        assert(t.last() == (48 + (value / pow8(k)) % 8) as u8);
    }
}

} // verus!
