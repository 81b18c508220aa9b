//! Verification: comparing a generated tree against a reference tree.
//!
//! Whoever has access to the file systems walks the two trees into [`Tree`]
//! values; [`verify`] compares them. Type, permissions, ownership, size, symlink
//! target and content hash are compared, and all differences are collected.
//!
//! Paths are kept as the bytes that the file system gave.

use crate::packer::ImageSpec;
use crate::path::{key_of, law_key_identifies_path, path_key, same_path};
use crate::text::{
    byte_chars, bytes_text, chars_of, copy_bytes, law_number_has_its_value, left_padded, number,
    number_text, pad_left, same_text, text_of, utf8_text, value_of,
};
use vstd::hash_map::StringHashMap;
use vstd::prelude::*;
use vstd::string::*;
use vstd::utf8::{
    decode_utf8, encode_utf8, encode_utf8_valid_utf8, length_of_first_scalar, pop_first_scalar,
    valid_first_scalar, valid_utf8, valid_utf8_concat,
};

verus! {

// ── Entries ─────────────────────────────────────────────────────────────────

/// The type of an entry of a tree.
#[derive(Clone, Copy, Debug, PartialEq, Eq, Structural)]
pub enum EntryKind {
    File,
    Dir,
    Symlink,
    /// Device nodes, named pipes, sockets and the like.
    Other,
}

/// The type that the file system's answers stand for.
pub open spec fn kind_of(is_symlink: bool, is_file: bool, is_dir: bool) -> EntryKind {
    if is_symlink {
        EntryKind::Symlink
    } else if is_file {
        EntryKind::File
    } else if is_dir {
        EntryKind::Dir
    } else {
        EntryKind::Other
    }
}

impl EntryKind {
    /// The type that the file system's answers stand for.
    pub fn new(is_symlink: bool, is_file: bool, is_dir: bool) -> (r: EntryKind)
        ensures
            r == kind_of(is_symlink, is_file, is_dir),
            is_symlink ==> r == EntryKind::Symlink,
            !is_symlink && is_file ==> r == EntryKind::File,
            !is_symlink && !is_file && is_dir ==> r == EntryKind::Dir,
            !is_symlink && !is_file && !is_dir ==> r == EntryKind::Other,
    {
        if is_symlink {
            EntryKind::Symlink
        } else if is_file {
            EntryKind::File
        } else if is_dir {
            EntryKind::Dir
        } else {
            EntryKind::Other
        }
    }

    /// Whether an entry of this type has a target that is compared.
    pub fn wants_target(self) -> (r: bool)
        ensures
            r == (self == EntryKind::Symlink),
    {
        self == EntryKind::Symlink
    }

    /// Whether an entry of this type has content that is compared.
    pub fn wants_hash(self) -> (r: bool)
        ensures
            r == (self == EntryKind::File),
    {
        self == EntryKind::File
    }

    /// The name of the type in reports.
    pub open spec fn label(self) -> Seq<char> {
        match self {
            EntryKind::File => "File"@,
            EntryKind::Dir => "Dir"@,
            EntryKind::Symlink => "Symlink"@,
            EntryKind::Other => "Other"@,
        }
    }

    /// The name of the type in reports.
    pub fn name(self) -> (r: &'static str)
        ensures
            r@ == self.label(),
            self == EntryKind::File ==> r@ == "File"@,
            self == EntryKind::Dir ==> r@ == "Dir"@,
            self == EntryKind::Symlink ==> r@ == "Symlink"@,
            self == EntryKind::Other ==> r@ == "Other"@,
    {
        match self {
            EntryKind::File => "File",
            EntryKind::Dir => "Dir",
            EntryKind::Symlink => "Symlink",
            EntryKind::Other => "Other",
        }
    }
}

/// What is known of an entry of a tree.
#[derive(Debug)]
pub struct EntryInfo {
    pub kind: EntryKind,
    /// Permission bits.
    pub mode: u32,
    pub uid: u32,
    pub gid: u32,
    /// Size in bytes, which counts for files only.
    pub size: u64,
    /// Target of a symlink.
    pub symlink_target: Option<Vec<u8>>,
    /// SHA-256 of a file's content in hex.
    pub sha256: Option<String>,
}

/// The values of an [`EntryInfo`].
#[verifier::ext_equal]
pub struct InfoView {
    pub kind: EntryKind,
    pub mode: u32,
    pub uid: u32,
    pub gid: u32,
    pub size: u64,
    pub target: Option<Seq<u8>>,
    pub sha256: Option<Seq<char>>,
}

impl View for EntryInfo {
    type V = InfoView;

    open spec fn view(&self) -> InfoView {
        InfoView {
            kind: self.kind,
            mode: self.mode,
            uid: self.uid,
            gid: self.gid,
            size: self.size,
            target: match self.symlink_target {
                Some(t) => Some(t@),
                None => None,
            },
            sha256: match self.sha256 {
                Some(h) => Some(h@),
                None => None,
            },
        }
    }
}

impl EntryInfo {
    /// What is known of an entry. Of `mode` the permission bits count; the type
    /// is in `kind`.
    pub fn new(
        kind: EntryKind,
        mode: u32,
        uid: u32,
        gid: u32,
        size: u64,
        symlink_target: Option<Vec<u8>>,
        sha256: Option<String>,
    ) -> (r: Self)
        ensures
            r.kind == kind,
            r.mode == mode & 0o7777,
            r.uid == uid,
            r.gid == gid,
            r.size == size,
            r.symlink_target == symlink_target,
            r.sha256 == sha256,
    {
        EntryInfo { kind, mode: mode & 0o7777, uid, gid, size, symlink_target, sha256 }
    }
}

// ── Differences ─────────────────────────────────────────────────────────────

/// What the `Debug` form of `std::path::Path` makes of a path.
pub uninterp spec fn debug_path(path: Seq<char>) -> Seq<char>;

/// Calls the `Debug` form of `std::path::Path`. Claims only that the result
/// depends on the path alone.
#[verifier::external_body]
fn path_text(path: &str) -> (r: String)
    ensures
        r@ == debug_path(path@),
{
    format!("{:?}", std::path::Path::new(path))
}

/// How many bytes the character has that bytes start with; 0 where they start
/// with none.
pub open spec fn leading_char(bytes: Seq<u8>) -> int {
    if bytes.len() >= 1 && valid_utf8(bytes.take(1)) {
        1
    } else if bytes.len() >= 2 && valid_utf8(bytes.take(2)) {
        2
    } else if bytes.len() >= 3 && valid_utf8(bytes.take(3)) {
        3
    } else if bytes.len() >= 4 && valid_utf8(bytes.take(4)) {
        4
    } else {
        0
    }
}

/// How many bytes the text has that bytes start with.
pub open spec fn leading_text(bytes: Seq<u8>) -> int
    decreases bytes.len(),
{
    let n = leading_char(bytes);
    if n == 0 {
        0
    } else {
        n + leading_text(bytes.skip(n))
    }
}

/// The character of a hexadecimal digit in upper case.
pub open spec fn upper_hex(d: nat) -> char {
    if d < 10 {
        (48 + d) as char
    } else {
        (55 + d) as char
    }
}

/// A byte that is not part of a text, in a report.
pub open spec fn escaped_byte(byte: u8) -> Seq<char> {
    seq!['\\', 'x', upper_hex(byte as nat / 16), upper_hex(byte as nat % 16)]
}

/// What is between the quotes around a text.
pub open spec fn unquoted(text: Seq<char>) -> Seq<char> {
    if text.len() >= 2 {
        text.subrange(1, text.len() - 1)
    } else {
        text
    }
}

/// Bytes in a report, between the quotes: pieces that are text as the `Debug`
/// form of a path has them, and every other byte escaped.
pub open spec fn escaped(bytes: Seq<u8>) -> Seq<char>
    decreases bytes.len(),
{
    let n = leading_text(bytes);
    if bytes.len() == 0 {
        Seq::empty()
    } else if n <= 0 || n > bytes.len() {
        escaped_byte(bytes[0]) + escaped(bytes.skip(1))
    } else {
        unquoted(debug_path(decode_utf8(bytes.take(n)))) + escaped(bytes.skip(n))
    }
}

/// A path given as bytes, in a report.
pub open spec fn debug_bytes(path: Seq<u8>) -> Seq<char> {
    if valid_utf8(path) {
        debug_path(decode_utf8(path))
    } else {
        "\""@ + escaped(path) + "\""@
    }
}

/// A symlink target in a report.
pub open spec fn target_text(target: Option<Seq<u8>>) -> Seq<char> {
    match target {
        Some(t) => "Some("@ + debug_bytes(t) + ")"@,
        None => "None"@,
    }
}

/// Whether two symlink targets are the same path.
pub open spec fn same_target(a: Option<Seq<u8>>, b: Option<Seq<u8>>) -> bool {
    match (a, b) {
        (Some(x), Some(y)) => path_key(byte_chars(x)) == path_key(byte_chars(y)),
        (None, None) => true,
        _ => false,
    }
}

/// A line that sets the values of one attribute side by side.
pub open spec fn versus(what: Seq<char>, generated: Seq<char>, reference: Seq<char>) -> Seq<char> {
    what + generated + " reference="@ + reference
}

/// The permission bits in a report: octal, with four digits at least.
pub open spec fn mode_text(mode: u32) -> Seq<char> {
    left_padded(number_text(mode as nat, 8), '0', 4)
}

/// `s` with `d` behind it, if `differs`.
pub open spec fn noted(s: Seq<Seq<char>>, differs: bool, d: Seq<char>) -> Seq<Seq<char>> {
    if differs {
        s.push(d)
    } else {
        s
    }
}

/// The differences between two entries. Where the types differ, nothing else is
/// compared. Owner and group count unless they are to be ignored, size and
/// content of files only.
pub open spec fn differences(g: InfoView, r: InfoView, ignore_ownership: bool) -> Seq<Seq<char>> {
    if g.kind != r.kind {
        seq![versus("type mismatch: generated="@, g.kind.label(), r.kind.label())]
    } else {
        let a = noted(
            Seq::empty(),
            g.mode != r.mode,
            versus("mode: generated="@, mode_text(g.mode), mode_text(r.mode)),
        );
        let b = noted(
            a,
            !ignore_ownership && g.uid != r.uid,
            versus(
                "uid: generated="@,
                number_text(g.uid as nat, 10),
                number_text(r.uid as nat, 10),
            ),
        );
        let c = noted(
            b,
            !ignore_ownership && g.gid != r.gid,
            versus(
                "gid: generated="@,
                number_text(g.gid as nat, 10),
                number_text(r.gid as nat, 10),
            ),
        );
        let d = noted(
            c,
            !same_target(g.target, r.target),
            versus("symlink target: generated="@, target_text(g.target), target_text(r.target)),
        );
        let e = noted(
            d,
            g.kind == EntryKind::File && g.size != r.size,
            versus(
                "size: generated="@,
                number_text(g.size as nat, 10),
                number_text(r.size as nat, 10),
            ),
        );
        noted(e, g.kind == EntryKind::File && g.sha256 != r.sha256, "sha256 mismatch"@)
    }
}

/// A single difference between the generated tree and the reference.
#[derive(Debug)]
pub struct FileDiff {
    /// Path of the entry.
    pub path: Vec<u8>,
    /// Description of the difference, such as
    /// `mode: generated=0755 reference=0644`.
    pub detail: String,
}

/// The values of differences.
pub open spec fn diff_views(v: Seq<FileDiff>) -> Seq<(Seq<u8>, Seq<char>)> {
    Seq::new(v.len(), |i: int| (v[i].path@, v[i].detail@))
}

/// Differences of one entry.
pub open spec fn at_path(path: Seq<u8>, details: Seq<Seq<char>>) -> Seq<(Seq<u8>, Seq<char>)> {
    Seq::new(details.len(), |i: int| (path, details[i]))
}

fn line(what: &str, generated: &str, reference: &str) -> (r: String)
    ensures
        r@ == versus(what@, generated@, reference@),
        r@ == what@ + generated@ + " reference="@ + reference@,
{
    let mut r = what.to_owned();
    r.append(generated);
    r.append(" reference=");
    r.append(reference);
    r
}

fn note(diffs: &mut Vec<FileDiff>, path: &Vec<u8>, detail: String)
    ensures
        diff_views(final(diffs)@) == diff_views(old(diffs)@).push((path@, detail@)),
{
    let ghost before = diff_views(diffs@);
    let ghost d = detail@;
    diffs.push(FileDiff { path: copy_bytes(path.as_slice()), detail });
    assert(diff_views(diffs@) =~= before.push((path@, d)));
}

fn mode_string(mode: u32) -> (r: String)
    ensures
        r@ == mode_text(mode),
{
    pad_left(number(mode as u64, 8).as_str(), '0', 4)
}

/// The bytes from `from` to `to`.
fn piece(bytes: &[u8], from: usize, to: usize) -> (r: Vec<u8>)
    requires
        from <= to <= bytes@.len(),
    ensures
        r@ == bytes@.subrange(from as int, to as int),
{
    let mut r: Vec<u8> = Vec::new();
    for i in from..to
        invariant
            from <= to <= bytes@.len(),
            r@ == bytes@.subrange(from as int, i as int),
    {
        r.push(bytes[i]);
        assert(r@ =~= bytes@.subrange(from as int, i + 1));
    }
    r
}

fn leading_char_at(bytes: &[u8], at: usize) -> (r: usize)
    requires
        at <= bytes@.len(),
    ensures
        r == leading_char(bytes@.skip(at as int)),
        at + r <= bytes@.len(),
{
    let ghost rest = bytes@.skip(at as int);
    for n in 1..5usize
        invariant
            at <= bytes.len(),
            rest == bytes@.skip(at as int),
            forall|m: int| 1 <= m < n ==> rest.len() < m || !valid_utf8(#[trigger] rest.take(m)),
    {
        if bytes.len() - at >= n {
            assert(rest.take(n as int) =~= bytes@.subrange(at as int, at + n));
            if utf8_text(piece(bytes, at, at + n)).is_some() {
                proof {
                    assert(rest.len() < 1 || !valid_utf8(rest.take(1)) || n == 1);
                    assert(rest.len() < 2 || !valid_utf8(rest.take(2)) || n <= 2);
                    assert(rest.len() < 3 || !valid_utf8(rest.take(3)) || n <= 3);
                }
                return n;
            }
        }
    }
    proof {
        assert(rest.len() < 1 || !valid_utf8(rest.take(1)));
        assert(rest.len() < 2 || !valid_utf8(rest.take(2)));
        assert(rest.len() < 3 || !valid_utf8(rest.take(3)));
        assert(rest.len() < 4 || !valid_utf8(rest.take(4)));
    }
    0
}

proof fn lemma_leading_text(bytes: Seq<u8>)
    ensures
        0 <= leading_text(bytes) <= bytes.len(),
        valid_utf8(bytes.take(leading_text(bytes))),
    decreases bytes.len(),
{
    let n = leading_char(bytes);
    if n == 0 {
        assert(bytes.take(0) =~= encode_utf8(Seq::empty()));
        encode_utf8_valid_utf8(Seq::empty());
    } else {
        lemma_leading_text(bytes.skip(n));
        let m = leading_text(bytes.skip(n));
        valid_utf8_concat(bytes.take(n), bytes.skip(n).take(m));
        assert(bytes.take(n) + bytes.skip(n).take(m) =~= bytes.take(n + m));
    }
}

fn leading_text_at(bytes: &[u8], at: usize) -> (r: usize)
    requires
        at <= bytes@.len(),
    ensures
        r == leading_text(bytes@.skip(at as int)),
        at + r <= bytes@.len(),
{
    let mut end: usize = at;
    assert(bytes@.skip(at as int) == bytes@.skip(end as int));
    loop
        invariant
            at <= end <= bytes.len(),
            leading_text(bytes@.skip(at as int)) == end - at + leading_text(
                bytes@.skip(end as int),
            ),
        ensures
            leading_text(bytes@.skip(at as int)) == end - at,
        decreases bytes.len() - end,
    {
        let n: usize = leading_char_at(bytes, end);
        if n == 0 {
            break;
        }
        assert(bytes@.skip(end as int).skip(n as int) =~= bytes@.skip(end + n));
        end = end + n;
    }
    end - at
}

fn upper_hex_digit(d: u8) -> (r: char)
    requires
        d < 16,
    ensures
        r == upper_hex(d as nat),
{
    if d < 10 {
        (48 + d) as char
    } else {
        (55 + d) as char
    }
}

/// What is between the quotes of the `Debug` form of a text.
fn unquoted_text(text: &str) -> (r: String)
    ensures
        r@ == unquoted(debug_path(text@)),
{
    let v = chars_of(path_text(text).as_str());
    if v.len() >= 2 {
        text_of(&v, 1, v.len() - 1)
    } else {
        let r = text_of(&v, 0, v.len());
        assert(r@ =~= v@);
        r
    }
}

/// A path given as bytes, in a report.
fn bytes_string(path: &[u8]) -> (r: String)
    ensures
        r@ == debug_bytes(path@),
{
    if let Some(text) = utf8_text(copy_bytes(path)) {
        return path_text(text.as_str());
    }
    let mut r = "\"".to_owned();
    let mut at: usize = 0;
    assert(path@.skip(0) =~= path@);
    while at < path.len()
        invariant
            at <= path.len(),
            r@ + escaped(path@.skip(at as int)) == "\""@ + escaped(path@),
        decreases path.len() - at,
    {
        let ghost rest = path@.skip(at as int);
        let ghost before = r@;
        let n: usize = leading_text_at(path, at);
        proof {
            lemma_leading_text(rest);
            assert(rest[0] == path@[at as int]);
        }
        if n == 0 {
            let byte: u8 = path[at];
            r.push('\\');
            r.push('x');
            r.push(upper_hex_digit(byte / 16));
            r.push(upper_hex_digit(byte % 16));
            proof {
                assert(rest.skip(1) =~= path@.skip(at + 1));
                assert(r@ =~= before + escaped_byte(byte));
                assert(r@ + escaped(path@.skip(at + 1)) =~= before + (escaped_byte(byte) + escaped(
                    path@.skip(at + 1),
                )));
            }
            at = at + 1;
        } else {
            assert(rest.take(n as int) =~= path@.subrange(at as int, at + n));
            let text = utf8_text(piece(path, at, at + n)).unwrap();
            let shown = unquoted_text(text.as_str());
            r.append(shown.as_str());
            proof {
                assert(rest.skip(n as int) =~= path@.skip(at + n));
                assert(r@ + escaped(path@.skip(at + n)) =~= before + (shown@ + escaped(
                    path@.skip(at + n),
                )));
            }
            at = at + n;
        }
    }
    assert(path@.skip(at as int) =~= Seq::empty());
    assert(r@ =~= "\""@ + escaped(path@));
    r.append("\"");
    r
}

fn target_string(target: &Option<Vec<u8>>) -> (r: String)
    ensures
        r@ == target_text(
            match target {
                Some(t) => Some(t@),
                None => None,
            },
        ),
{
    match target {
        Some(t) => {
            let mut r = "Some(".to_owned();
            r.append(bytes_string(t.as_slice()).as_str());
            r.append(")");
            r
        },
        None => "None".to_owned(),
    }
}

fn targets_equal(a: &Option<Vec<u8>>, b: &Option<Vec<u8>>) -> (r: bool)
    ensures
        r == same_target(
            match a {
                Some(t) => Some(t@),
                None => None,
            },
            match b {
                Some(t) => Some(t@),
                None => None,
            },
        ),
        r == match (a, b) {
            (Some(x), Some(y)) => same_path(byte_chars(x@), byte_chars(y@)),
            (None, None) => true,
            _ => false,
        },
{
    proof {
        if let (Some(x), Some(y)) = (a, b) {
            law_key_identifies_path(byte_chars(x@), byte_chars(y@));
        }
    }
    match (a, b) {
        (Some(x), Some(y)) => same_text(
            key_of(bytes_text(x.as_slice()).as_str()).as_str(),
            key_of(bytes_text(y.as_slice()).as_str()).as_str(),
        ),
        (None, None) => true,
        _ => false,
    }
}

fn hashes_equal(a: &Option<String>, b: &Option<String>) -> (r: bool)
    ensures
        r == (match a {
            Some(t) => Some(t@),
            None => None,
        } == match b {
            Some(t) => Some(t@),
            None => None,
        }),
{
    match (a, b) {
        (Some(x), Some(y)) => same_text(x.as_str(), y.as_str()),
        (None, None) => true,
        _ => false,
    }
}

/// Compare two entries at `path` and put the differences behind `diffs`.
fn compare_entries(
    path: &Vec<u8>,
    generated: &EntryInfo,
    reference: &EntryInfo,
    ignore_ownership: bool,
    diffs: &mut Vec<FileDiff>,
)
    ensures
        diff_views(final(diffs)@) == diff_views(old(diffs)@) + at_path(
            path@,
            differences(generated@, reference@, ignore_ownership),
        ),
{
    let ghost start = diff_views(diffs@);
    let ghost p = path@;
    if generated.kind != reference.kind {
        note(
            diffs,
            path,
            line("type mismatch: generated=", generated.kind.name(), reference.kind.name()),
        );
        assert(diff_views(diffs@) =~= start + at_path(
            p,
            differences(generated@, reference@, ignore_ownership),
        ));
        return;
    }
    let ghost mut found: Seq<Seq<char>> = Seq::empty();
    assert(diff_views(diffs@) =~= start + at_path(p, found));
    if generated.mode != reference.mode {
        let detail = line(
            "mode: generated=",
            mode_string(generated.mode).as_str(),
            mode_string(reference.mode).as_str(),
        );
        proof {
            lemma_noted(start, p, found, detail@);
            found = found.push(detail@);
        }
        note(diffs, path, detail);
    }
    if !ignore_ownership && generated.uid != reference.uid {
        let detail = line(
            "uid: generated=",
            number(generated.uid as u64, 10).as_str(),
            number(reference.uid as u64, 10).as_str(),
        );
        proof {
            lemma_noted(start, p, found, detail@);
            found = found.push(detail@);
        }
        note(diffs, path, detail);
    }
    if !ignore_ownership && generated.gid != reference.gid {
        let detail = line(
            "gid: generated=",
            number(generated.gid as u64, 10).as_str(),
            number(reference.gid as u64, 10).as_str(),
        );
        proof {
            lemma_noted(start, p, found, detail@);
            found = found.push(detail@);
        }
        note(diffs, path, detail);
    }
    if !targets_equal(&generated.symlink_target, &reference.symlink_target) {
        let detail = line(
            "symlink target: generated=",
            target_string(&generated.symlink_target).as_str(),
            target_string(&reference.symlink_target).as_str(),
        );
        proof {
            lemma_noted(start, p, found, detail@);
            found = found.push(detail@);
        }
        note(diffs, path, detail);
    }
    if generated.kind == EntryKind::File {
        if generated.size != reference.size {
            let detail = line(
                "size: generated=",
                number(generated.size, 10).as_str(),
                number(reference.size, 10).as_str(),
            );
            proof {
                lemma_noted(start, p, found, detail@);
                found = found.push(detail@);
            }
            note(diffs, path, detail);
        }
        if !hashes_equal(&generated.sha256, &reference.sha256) {
            let detail = "sha256 mismatch".to_owned();
            proof {
                lemma_noted(start, p, found, detail@);
                found = found.push(detail@);
            }
            note(diffs, path, detail);
        }
    }
    assert(found == differences(generated@, reference@, ignore_ownership));
}

proof fn lemma_noted(
    start: Seq<(Seq<u8>, Seq<char>)>,
    p: Seq<u8>,
    found: Seq<Seq<char>>,
    d: Seq<char>,
)
    ensures
        (start + at_path(p, found)).push((p, d)) == start + at_path(p, found.push(d)),
{
    assert((start + at_path(p, found)).push((p, d)) =~= start + at_path(p, found.push(d)));
}

// ── Trees ───────────────────────────────────────────────────────────────────

/// The key of a path given as bytes.
pub open spec fn bytes_key(path: Seq<u8>) -> Seq<char> {
    path_key(byte_chars(path))
}

/// A tree: its paths with what is known of each, in the order of the walk.
pub struct Tree {
    entries: Vec<(Vec<u8>, EntryInfo)>,
    index: StringHashMap<usize>,
}

impl View for Tree {
    type V = Seq<(Seq<u8>, InfoView)>;

    closed spec fn view(&self) -> Seq<(Seq<u8>, InfoView)> {
        Seq::new(self.entries@.len(), |i: int| (self.entries@[i].0@, self.entries@[i].1@))
    }
}

/// Where a path is in a tree.
pub open spec fn at_key(t: Seq<(Seq<u8>, InfoView)>, key: Seq<char>, i: int) -> bool {
    0 <= i < t.len() && bytes_key(t[i].0) == key
}

/// Whether a path is in a tree.
pub open spec fn in_tree(t: Seq<(Seq<u8>, InfoView)>, key: Seq<char>) -> bool {
    exists|i: int| #[trigger] at_key(t, key, i)
}

/// What is known of a path in a tree.
pub open spec fn info_at(t: Seq<(Seq<u8>, InfoView)>, key: Seq<char>) -> InfoView {
    t[choose|i: int| #[trigger] at_key(t, key, i)].1
}

impl Tree {
    /// Whether every path is in the tree once and can be found.
    pub closed spec fn wf(&self) -> bool {
        &&& forall|i: int|
            0 <= i < self@.len() ==> self.index@.contains_key(bytes_key((#[trigger] self@[i]).0))
                && self.index@[bytes_key(self@[i].0)] == i
        &&& forall|key: Seq<char>| #[trigger]
            self.index@.contains_key(key) ==> at_key(self@, key, self.index@[key] as int)
    }

    /// A tree without entries.
    pub fn new() -> (r: Self)
        ensures
            r.wf(),
            r@.len() == 0,
    {
        Tree { entries: Vec::new(), index: StringHashMap::new() }
    }

    /// Add an entry. It replaces what is known of the same path.
    pub fn insert(&mut self, path: Vec<u8>, info: EntryInfo)
        requires
            old(self).wf(),
        ensures
            final(self).wf(),
            !in_tree(old(self)@, bytes_key(path@)) ==> final(self)@ == old(self)@.push(
                (path@, info@),
            ),
            in_tree(old(self)@, bytes_key(path@)) ==> exists|i: int|
                #[trigger] at_key(old(self)@, bytes_key(path@), i) && final(self)@ == old(
                    self,
                )@.update(i, (old(self)@[i].0, info@)),
    {
        let key = key_of(bytes_text(path.as_slice()).as_str());
        let ghost before = self@;
        let ghost k = bytes_key(path@);
        match self.index.get(key.as_str()) {
            Some(i) => {
                let i: usize = *i;
                assert(at_key(before, k, i as int));
                self.entries[i].1 = info;
                assert(self@ =~= before.update(i as int, (before[i as int].0, info@)));
                proof {
                    assert forall|key: Seq<char>| #[trigger]
                        self.index@.contains_key(key) implies at_key(
                        self@,
                        key,
                        self.index@[key] as int,
                    ) by {
                        assert(at_key(before, key, self.index@[key] as int));
                    }
                    assert forall|j: int| 0 <= j < self@.len() implies self.index@.contains_key(
                        bytes_key((#[trigger] self@[j]).0),
                    ) && self.index@[bytes_key(self@[j].0)] == j by {
                        assert(self@[j].0 == before[j].0);
                    }
                }
            },
            None => {
                let n: usize = self.entries.len();
                assert(!in_tree(before, k)) by {
                    if in_tree(before, k) {
                        let i = choose|i: int| #[trigger] at_key(before, k, i);
                        assert(self.index@.contains_key(bytes_key(before[i].0)));
                    }
                }
                let ghost p = path@;
                let ghost f = info@;
                self.entries.push((path, info));
                self.index.insert(key, n);
                assert(self@ =~= before.push((p, f)));
                proof {
                    assert forall|key: Seq<char>| #[trigger]
                        self.index@.contains_key(key) implies at_key(
                        self@,
                        key,
                        self.index@[key] as int,
                    ) by {
                        if key != k {
                            assert(old(self).index@.contains_key(key));
                            assert(at_key(before, key, old(self).index@[key] as int));
                        }
                    }
                    assert forall|j: int| 0 <= j < self@.len() implies self.index@.contains_key(
                        bytes_key((#[trigger] self@[j]).0),
                    ) && self.index@[bytes_key(self@[j].0)] == j by {
                        if j < before.len() {
                            assert(self@[j] == before[j]);
                            assert(old(self).index@.contains_key(bytes_key(before[j].0)));
                            assert(!at_key(before, k, j));
                        }
                    }
                }
            },
        }
    }

    /// What is known of a path.
    fn find(&self, path: &Vec<u8>) -> (r: Option<&EntryInfo>)
        requires
            self.wf(),
        ensures
            match r {
                Some(info) => in_tree(self@, bytes_key(path@)) && info@ == info_at(
                    self@,
                    bytes_key(path@),
                ),
                None => !in_tree(self@, bytes_key(path@)),
            },
    {
        let key = key_of(bytes_text(path.as_slice()).as_str());
        let ghost k = bytes_key(path@);
        match self.index.get(key.as_str()) {
            Some(i) => {
                proof {
                    assert(at_key(self@, k, *i as int));
                    let j = choose|j: int| #[trigger] at_key(self@, k, j);
                    assert(self.index@[bytes_key(self@[j].0)] == j);
                }
                Some(&self.entries[*i].1)
            },
            None => {
                assert(!in_tree(self@, k)) by {
                    if in_tree(self@, k) {
                        let i = choose|i: int| #[trigger] at_key(self@, k, i);
                        assert(self.index@.contains_key(bytes_key(self@[i].0)));
                    }
                }
                None
            },
        }
    }
}

// ── Comparing trees ─────────────────────────────────────────────────────────

/// The paths of `a` that are not in `b`.
pub open spec fn missing(
    a: Seq<(Seq<u8>, InfoView)>,
    b: Seq<(Seq<u8>, InfoView)>,
) -> Seq<Seq<u8>>
    decreases a.len(),
{
    if a.len() == 0 {
        Seq::empty()
    } else if in_tree(b, bytes_key(a.last().0)) {
        missing(a.drop_last(), b)
    } else {
        missing(a.drop_last(), b).push(a.last().0)
    }
}

/// The differences between entries that are in both trees.
pub open spec fn all_differences(
    g: Seq<(Seq<u8>, InfoView)>,
    r: Seq<(Seq<u8>, InfoView)>,
    ignore_ownership: bool,
) -> Seq<(Seq<u8>, Seq<char>)>
    decreases g.len(),
{
    if g.len() == 0 {
        Seq::empty()
    } else {
        let before = all_differences(g.drop_last(), r, ignore_ownership);
        let (path, info) = g.last();
        if in_tree(r, bytes_key(path)) {
            before + at_path(
                path,
                differences(info, info_at(r, bytes_key(path)), ignore_ownership),
            )
        } else {
            before
        }
    }
}

/// The result of comparing a generated tree against a reference.
#[derive(Debug)]
pub struct VerifyReport {
    /// Paths that only the generated tree has.
    pub only_in_generated: Vec<Vec<u8>>,
    /// Paths that only the reference has.
    pub only_in_reference: Vec<Vec<u8>>,
    /// Differences of entries that both have.
    pub differences: Vec<FileDiff>,
}

/// The values of paths.
pub open spec fn path_views(v: Seq<Vec<u8>>) -> Seq<Seq<u8>> {
    Seq::new(v.len(), |i: int| v[i]@)
}

impl VerifyReport {
    /// Whether the report is that of two trees.
    pub open spec fn reports(
        self,
        g: Seq<(Seq<u8>, InfoView)>,
        r: Seq<(Seq<u8>, InfoView)>,
        ignore_ownership: bool,
    ) -> bool {
        &&& path_views(self.only_in_generated@) == missing(g, r)
        &&& path_views(self.only_in_reference@) == missing(r, g)
        &&& diff_views(self.differences@) == all_differences(g, r, ignore_ownership)
    }

    /// Return `true` if there is no difference.
    pub fn is_clean(&self) -> (r: bool)
        ensures
            r == (self.only_in_generated@.len() == 0 && self.only_in_reference@.len() == 0
                && self.differences@.len() == 0),
    {
        self.only_in_generated.len() == 0 && self.only_in_reference.len() == 0
            && self.differences.len() == 0
    }
}

fn paths_missing(a: &Tree, b: &Tree) -> (r: Vec<Vec<u8>>)
    requires
        b.wf(),
    ensures
        path_views(r@) == missing(a@, b@),
{
    let mut r: Vec<Vec<u8>> = Vec::new();
    let ghost all = a@;
    assert(all.take(0) =~= Seq::empty());
    assert(path_views(r@) =~= Seq::empty());
    for i in 0..a.entries.len()
        invariant
            b.wf(),
            all == a@,
            path_views(r@) == missing(all.take(i as int), b@),
    {
        let ghost before = path_views(r@);
        assert(all.take(i + 1).drop_last() =~= all.take(i as int));
        let path = &a.entries[i].0;
        assert(all.take(i + 1).last().0 == path@);
        if b.find(path).is_none() {
            r.push(copy_bytes(path.as_slice()));
            assert(path_views(r@) =~= before.push(path@));
        }
    }
    assert(all.take(all.len() as int) =~= all);
    r
}

/// Compare two trees. All differences are collected, in the order of the walks.
///
/// If `ignore_ownership` is `true`, differences of owner and group do not count.
pub fn verify_dirs(generated: &Tree, reference: &Tree, ignore_ownership: bool) -> (r: VerifyReport)
    requires
        generated.wf(),
        reference.wf(),
    ensures
        r.reports(generated@, reference@, ignore_ownership),
{
    let only_in_generated = paths_missing(generated, reference);
    let only_in_reference = paths_missing(reference, generated);
    let mut differences: Vec<FileDiff> = Vec::new();
    let ghost all = generated@;
    assert(all.take(0) =~= Seq::empty());
    assert(diff_views(differences@) =~= Seq::empty());
    for i in 0..generated.entries.len()
        invariant
            reference.wf(),
            all == generated@,
            diff_views(differences@) == all_differences(
                all.take(i as int),
                reference@,
                ignore_ownership,
            ),
    {
        assert(all.take(i + 1).drop_last() =~= all.take(i as int));
        let path = &generated.entries[i].0;
        let info = &generated.entries[i].1;
        assert(all.take(i + 1).last() == (path@, info@));
        if let Some(other) = reference.find(path) {
            compare_entries(path, info, other, ignore_ownership, &mut differences);
        }
    }
    assert(all.take(all.len() as int) =~= all);
    VerifyReport { only_in_generated, only_in_reference, differences }
}

/// Why an image cannot be verified.
#[derive(Clone, Copy, Debug, PartialEq, Eq, Structural)]
pub enum VerifyError {
    /// A tar archive cannot be compared directly; it has to be extracted first.
    TarNotSupported,
}

/// The program that mounts an image for verification. `None` for a directory,
/// which is compared directly, and an error for a tar archive.
pub fn mount_program(spec: &ImageSpec) -> (r: Result<Option<&'static str>, VerifyError>)
    ensures
        match *spec {
            ImageSpec::Squashfs { .. } => r matches Ok(Some(p)) && p@ == "squashfuse"@,
            ImageSpec::Erofs { .. } => r matches Ok(Some(p)) && p@ == "erofsfuse"@,
            ImageSpec::Dir { .. } => r matches Ok(None),
            ImageSpec::Tar { .. } => r == Err::<Option<&'static str>, VerifyError>(
                VerifyError::TarNotSupported,
            ),
        },
{
    match spec {
        ImageSpec::Squashfs { .. } => Ok(Some("squashfuse")),
        ImageSpec::Erofs { .. } => Ok(Some("erofsfuse")),
        ImageSpec::Dir { .. } => Ok(None),
        ImageSpec::Tar { .. } => Err(VerifyError::TarNotSupported),
    }
}

/// Compare the tree of a generated image against a reference tree.
///
/// The tree of a squashfs or erofs image is that of its mount, see
/// [`mount_program`]. A tar archive cannot be compared: extract it first, and
/// verify the directory.
pub fn verify(
    spec: &ImageSpec,
    generated: &Tree,
    reference: &Tree,
    ignore_ownership: bool,
) -> (r: Result<VerifyReport, VerifyError>)
    requires
        generated.wf(),
        reference.wf(),
    ensures
        match r {
            Ok(report) => !(spec is Tar) && report.reports(
                generated@,
                reference@,
                ignore_ownership,
            ),
            Err(e) => spec is Tar && e == VerifyError::TarNotSupported,
        },
{
    match mount_program(spec) {
        Ok(_) => Ok(verify_dirs(generated, reference, ignore_ownership)),
        Err(e) => Err(e),
    }
}

// ── Laws ────────────────────────────────────────────────────────────────────

/// Whether two entries agree in everything that is compared.
pub open spec fn entries_agree(g: InfoView, r: InfoView, ignore_ownership: bool) -> bool {
    &&& g.kind == r.kind
    &&& g.mode == r.mode
    &&& ignore_ownership || (g.uid == r.uid && g.gid == r.gid)
    &&& same_target(g.target, r.target)
    &&& g.kind == EntryKind::File ==> g.size == r.size && g.sha256 == r.sha256
}

/// Two entries without differences agree, and two that agree have none.
pub proof fn law_no_differences_iff_agreement(g: InfoView, r: InfoView, ignore_ownership: bool)
    ensures
        differences(g, r, ignore_ownership).len() == 0 <==> entries_agree(g, r, ignore_ownership),
{
}

/// Owner and group make no difference where they are ignored.
pub proof fn law_ownership_can_be_ignored(
    g: InfoView,
    r: InfoView,
    uid: u32,
    gid: u32,
    uid2: u32,
    gid2: u32,
)
    ensures
        differences(g, r, true) == differences(
            InfoView { uid, gid, ..g },
            InfoView { uid: uid2, gid: gid2, ..r },
            true,
        ),
{
}

/// Whether every entry of `g` is in `r` and agrees with what is there.
pub open spec fn all_found(
    g: Seq<(Seq<u8>, InfoView)>,
    r: Seq<(Seq<u8>, InfoView)>,
    ignore_ownership: bool,
) -> bool {
    forall|i: int|
        0 <= i < g.len() ==> in_tree(r, bytes_key((#[trigger] g[i]).0)) && entries_agree(
            g[i].1,
            info_at(r, bytes_key(g[i].0)),
            ignore_ownership,
        )
}

/// Whether every path of `r` is in `g`.
pub open spec fn all_covered(r: Seq<(Seq<u8>, InfoView)>, g: Seq<(Seq<u8>, InfoView)>) -> bool {
    forall|i: int| 0 <= i < r.len() ==> in_tree(g, bytes_key((#[trigger] r[i]).0))
}

proof fn lemma_missing(a: Seq<(Seq<u8>, InfoView)>, b: Seq<(Seq<u8>, InfoView)>)
    ensures
        missing(a, b).len() == 0 <==> all_covered(a, b),
    decreases a.len(),
{
    if a.len() > 0 {
        let rest = a.drop_last();
        lemma_missing(rest, b);
        if all_covered(a, b) {
            assert(in_tree(b, bytes_key(a[a.len() - 1].0)));
            assert forall|i: int| 0 <= i < rest.len() implies in_tree(
                b,
                bytes_key((#[trigger] rest[i]).0),
            ) by {
                assert(in_tree(b, bytes_key(a[i].0)));
            }
        }
        if all_covered(rest, b) && in_tree(b, bytes_key(a.last().0)) {
            assert forall|i: int| 0 <= i < a.len() implies in_tree(
                b,
                bytes_key((#[trigger] a[i]).0),
            ) by {
                if i < rest.len() {
                    assert(in_tree(b, bytes_key(rest[i].0)));
                }
            }
        }
    }
}

proof fn lemma_all_differences(
    g: Seq<(Seq<u8>, InfoView)>,
    r: Seq<(Seq<u8>, InfoView)>,
    ignore_ownership: bool,
)
    requires
        all_covered(g, r),
    ensures
        all_differences(g, r, ignore_ownership).len() == 0 <==> all_found(g, r, ignore_ownership),
    decreases g.len(),
{
    if g.len() > 0 {
        let rest = g.drop_last();
        let (path, info) = g[g.len() - 1];
        assert(in_tree(r, bytes_key(path)));
        assert(all_covered(rest, r)) by {
            assert forall|i: int| 0 <= i < rest.len() implies in_tree(
                r,
                bytes_key((#[trigger] rest[i]).0),
            ) by {
                assert(in_tree(r, bytes_key(g[i].0)));
            }
        }
        lemma_all_differences(rest, r, ignore_ownership);
        law_no_differences_iff_agreement(info, info_at(r, bytes_key(path)), ignore_ownership);
        if all_found(g, r, ignore_ownership) {
            assert(entries_agree(
                g[g.len() - 1].1,
                info_at(r, bytes_key(g[g.len() - 1].0)),
                ignore_ownership,
            ));
            assert forall|i: int| 0 <= i < rest.len() implies in_tree(
                r,
                bytes_key((#[trigger] rest[i]).0),
            ) && entries_agree(
                rest[i].1,
                info_at(r, bytes_key(rest[i].0)),
                ignore_ownership,
            ) by {
                assert(entries_agree(g[i].1, info_at(r, bytes_key(g[i].0)), ignore_ownership));
            }
        }
        if all_found(rest, r, ignore_ownership) && entries_agree(
            info,
            info_at(r, bytes_key(path)),
            ignore_ownership,
        ) {
            assert forall|i: int| 0 <= i < g.len() implies in_tree(
                r,
                bytes_key((#[trigger] g[i]).0),
            ) && entries_agree(g[i].1, info_at(r, bytes_key(g[i].0)), ignore_ownership) by {
                if i < rest.len() {
                    assert(entries_agree(
                        rest[i].1,
                        info_at(r, bytes_key(rest[i].0)),
                        ignore_ownership,
                    ));
                }
            }
        }
    }
}

/// A report is clean exactly when the two trees have the same paths and agree
/// at each of them.
pub proof fn law_clean_iff_trees_agree(
    report: VerifyReport,
    g: Seq<(Seq<u8>, InfoView)>,
    r: Seq<(Seq<u8>, InfoView)>,
    ignore_ownership: bool,
)
    requires
        report.reports(g, r, ignore_ownership),
    ensures
        (report.only_in_generated@.len() == 0 && report.only_in_reference@.len() == 0
            && report.differences@.len() == 0) <==> (all_found(g, r, ignore_ownership)
            && all_covered(r, g)),
{
    lemma_missing(g, r);
    lemma_missing(r, g);
    assert(path_views(report.only_in_generated@).len() == report.only_in_generated@.len());
    assert(path_views(report.only_in_reference@).len() == report.only_in_reference@.len());
    assert(diff_views(report.differences@).len() == report.differences@.len());
    if all_covered(g, r) {
        lemma_all_differences(g, r, ignore_ownership);
    }
    if all_found(g, r, ignore_ownership) {
        assert forall|i: int| 0 <= i < g.len() implies in_tree(
            r,
            bytes_key((#[trigger] g[i]).0),
        ) by {}
    }
}

/// Whether no path is in a tree twice.
pub open spec fn distinct_paths(t: Seq<(Seq<u8>, InfoView)>) -> bool {
    forall|i: int, j: int|
        0 <= i < j < t.len() ==> bytes_key((#[trigger] t[i]).0) != bytes_key((#[trigger] t[j]).0)
}

/// No path is in a [`Tree`] twice.
pub proof fn law_tree_has_distinct_paths(t: Tree)
    requires
        t.wf(),
    ensures
        distinct_paths(t@),
        forall|i: int, j: int|
            0 <= i < j < t@.len() ==> !same_path(
                byte_chars((#[trigger] t@[i]).0),
                byte_chars((#[trigger] t@[j]).0),
            ),
{
    assert forall|i: int, j: int| 0 <= i < j < t@.len() implies bytes_key((#[trigger] t@[i]).0)
        != bytes_key((#[trigger] t@[j]).0) by {
        assert(t.index@[bytes_key(t@[i].0)] == i);
        assert(t.index@[bytes_key(t@[j].0)] == j);
    }
    assert forall|i: int, j: int| 0 <= i < j < t@.len() implies !same_path(
        byte_chars((#[trigger] t@[i]).0),
        byte_chars((#[trigger] t@[j]).0),
    ) by {
        law_key_identifies_path(byte_chars(t@[i].0), byte_chars(t@[j].0));
    }
}

/// A tree in which no path is twice agrees with itself.
pub proof fn law_tree_agrees_with_itself(t: Seq<(Seq<u8>, InfoView)>, ignore_ownership: bool)
    requires
        distinct_paths(t),
    ensures
        all_found(t, t, ignore_ownership),
        all_covered(t, t),
{
    assert forall|i: int| 0 <= i < t.len() implies in_tree(t, bytes_key((#[trigger] t[i]).0))
        && entries_agree(t[i].1, info_at(t, bytes_key(t[i].0)), ignore_ownership) by {
        let key = bytes_key(t[i].0);
        assert(at_key(t, key, i));
        let j = choose|j: int| #[trigger] at_key(t, key, j);
        if i < j {
            assert(bytes_key(t[i].0) != bytes_key(t[j].0));
        } else if j < i {
            assert(bytes_key(t[j].0) != bytes_key(t[i].0));
        }
    }
}

/// The report of a [`Tree`] against itself is clean.
pub proof fn law_tree_is_clean_against_itself(
    t: Tree,
    report: VerifyReport,
    ignore_ownership: bool,
)
    requires
        t.wf(),
        report.reports(t@, t@, ignore_ownership),
    ensures
        report.only_in_generated@.len() == 0,
        report.only_in_reference@.len() == 0,
        report.differences@.len() == 0,
{
    law_tree_has_distinct_paths(t);
    law_tree_agrees_with_itself(t@, ignore_ownership);
    law_clean_iff_trees_agree(report, t@, t@, ignore_ownership);
}

/// Whether a line of a report is about the owner or the group.
pub open spec fn is_ownership(detail: Seq<char>) -> bool {
    "uid: generated="@.is_prefix_of(detail) || "gid: generated="@.is_prefix_of(detail)
}

/// Differences without those of owner and group.
pub open spec fn without_ownership(diffs: Seq<(Seq<u8>, Seq<char>)>) -> Seq<(Seq<u8>, Seq<char>)>
    decreases diffs.len(),
{
    if diffs.len() == 0 {
        Seq::empty()
    } else if is_ownership(diffs.last().1) {
        without_ownership(diffs.drop_last())
    } else {
        without_ownership(diffs.drop_last()).push(diffs.last())
    }
}

proof fn lemma_without_ownership_add(
    a: Seq<(Seq<u8>, Seq<char>)>,
    b: Seq<(Seq<u8>, Seq<char>)>,
)
    ensures
        without_ownership(a + b) == without_ownership(a) + without_ownership(b),
    decreases b.len(),
{
    if b.len() == 0 {
        assert(a + b =~= a);
        assert(without_ownership(a) + without_ownership(b) =~= without_ownership(a));
    } else {
        lemma_without_ownership_add(a, b.drop_last());
        assert((a + b).drop_last() =~= a + b.drop_last());
        assert((a + b).last() == b.last());
        if !is_ownership(b.last().1) {
            assert((without_ownership(a) + without_ownership(b.drop_last())).push(b.last())
                =~= without_ownership(a) + without_ownership(b.drop_last()).push(b.last()));
        }
    }
}

proof fn lemma_noted_ownership(
    path: Seq<u8>,
    s: Seq<Seq<char>>,
    t: Seq<Seq<char>>,
    differs: bool,
    d: Seq<char>,
)
    requires
        without_ownership(at_path(path, s)) == at_path(path, t),
    ensures
        without_ownership(at_path(path, noted(s, differs, d))) == at_path(
            path,
            noted(t, differs && !is_ownership(d), d),
        ),
{
    if differs {
        let all = at_path(path, s.push(d));
        assert(all.drop_last() =~= at_path(path, s));
        assert(all.last() == (path, d));
        assert(at_path(path, t).push((path, d)) =~= at_path(path, t.push(d)));
    }
}

proof fn lemma_differences_ownership(path: Seq<u8>, g: InfoView, r: InfoView)
    ensures
        without_ownership(at_path(path, differences(g, r, false))) == at_path(
            path,
            differences(g, r, true),
        ),
{
    reveal_strlit("uid: generated=");
    reveal_strlit("gid: generated=");
    reveal_strlit("type mismatch: generated=");
    reveal_strlit("mode: generated=");
    reveal_strlit("symlink target: generated=");
    reveal_strlit("size: generated=");
    reveal_strlit("sha256 mismatch");
    let none = Seq::<Seq<char>>::empty();
    assert(without_ownership(at_path(path, none)) =~= at_path(path, none));
    if g.kind != r.kind {
        let d = versus("type mismatch: generated="@, g.kind.label(), r.kind.label());
        lemma_other_line(d, 't');
        lemma_noted_ownership(path, none, none, true, d);
        assert(noted(none, true, d) =~= seq![d]);
    } else {
        let mode = versus("mode: generated="@, mode_text(g.mode), mode_text(r.mode));
        let uid = versus(
            "uid: generated="@,
            number_text(g.uid as nat, 10),
            number_text(r.uid as nat, 10),
        );
        let gid = versus(
            "gid: generated="@,
            number_text(g.gid as nat, 10),
            number_text(r.gid as nat, 10),
        );
        let link = versus(
            "symlink target: generated="@,
            target_text(g.target),
            target_text(r.target),
        );
        let size = versus(
            "size: generated="@,
            number_text(g.size as nat, 10),
            number_text(r.size as nat, 10),
        );
        lemma_other_line(mode, 'm');
        lemma_other_line(link, 's');
        lemma_other_line(size, 's');
        lemma_other_line("sha256 mismatch"@, 's');
        assert("uid: generated="@ =~= uid.subrange(0, "uid: generated="@.len() as int));
        assert("gid: generated="@ =~= gid.subrange(0, "gid: generated="@.len() as int));
        let a = noted(none, g.mode != r.mode, mode);
        let b = noted(a, g.uid != r.uid, uid);
        let c = noted(b, g.gid != r.gid, gid);
        let d = noted(c, !same_target(g.target, r.target), link);
        let d2 = noted(a, !same_target(g.target, r.target), link);
        let differs = g.kind == EntryKind::File && g.size != r.size;
        let e = noted(d, differs, size);
        let e2 = noted(d2, differs, size);
        lemma_noted_ownership(path, none, none, g.mode != r.mode, mode);
        lemma_noted_ownership(path, a, a, g.uid != r.uid, uid);
        lemma_noted_ownership(path, b, a, g.gid != r.gid, gid);
        lemma_noted_ownership(path, c, a, !same_target(g.target, r.target), link);
        lemma_noted_ownership(path, d, d2, differs, size);
        lemma_noted_ownership(
            path,
            e,
            e2,
            g.kind == EntryKind::File && g.sha256 != r.sha256,
            "sha256 mismatch"@,
        );
    }
}

proof fn lemma_other_line(d: Seq<char>, first: char)
    requires
        d.len() > 0,
        d[0] == first,
        first != 'u',
        first != 'g',
    ensures
        !is_ownership(d),
{
    reveal_strlit("uid: generated=");
    reveal_strlit("gid: generated=");
    if "uid: generated="@.is_prefix_of(d) {
        assert(d.subrange(0, "uid: generated="@.len() as int)[0] == 'u');
    }
    if "gid: generated="@.is_prefix_of(d) {
        assert(d.subrange(0, "gid: generated="@.len() as int)[0] == 'g');
    }
}

proof fn lemma_all_ownership(g: Seq<(Seq<u8>, InfoView)>, r: Seq<(Seq<u8>, InfoView)>)
    ensures
        without_ownership(all_differences(g, r, false)) == all_differences(g, r, true),
    decreases g.len(),
{
    if g.len() > 0 {
        lemma_all_ownership(g.drop_last(), r);
        let (path, info) = g.last();
        if in_tree(r, bytes_key(path)) {
            let other = info_at(r, bytes_key(path));
            lemma_differences_ownership(path, info, other);
            lemma_without_ownership_add(
                all_differences(g.drop_last(), r, false),
                at_path(path, differences(info, other, false)),
            );
        }
    }
}

/// Ignoring ownership takes exactly the lines about owner and group out of a
/// report, and leaves everything else in it.
pub proof fn law_ignoring_ownership_removes_its_lines(
    strict: VerifyReport,
    lenient: VerifyReport,
    g: Seq<(Seq<u8>, InfoView)>,
    r: Seq<(Seq<u8>, InfoView)>,
)
    requires
        strict.reports(g, r, false),
        lenient.reports(g, r, true),
    ensures
        path_views(lenient.only_in_generated@) == path_views(strict.only_in_generated@),
        path_views(lenient.only_in_reference@) == path_views(strict.only_in_reference@),
        diff_views(lenient.differences@) == without_ownership(diff_views(strict.differences@)),
{
    lemma_all_ownership(g, r);
}

// ── Laws on paths ───────────────────────────────────────────────────────────

/// Two targets count as the same exactly when they are the same path: the same
/// components, both from the root or neither.
pub proof fn law_targets_are_compared_as_paths(x: Seq<u8>, y: Seq<u8>)
    ensures
        same_target(Some(x), Some(y)) <==> same_path(byte_chars(x), byte_chars(y)),
        same_target(None, None),
        !same_target(Some(x), None),
        !same_target(None, Some(y)),
{
    law_key_identifies_path(byte_chars(x), byte_chars(y));
}

/// Whether some entry of a tree has the same path as `p`.
pub open spec fn has_path(t: Seq<(Seq<u8>, InfoView)>, p: Seq<u8>) -> bool {
    exists|i: int|
        0 <= i < t.len() && same_path(byte_chars((#[trigger] t[i]).0), byte_chars(p))
}

/// A path is in a tree exactly when one of the entries has the same path, and
/// what is known of it is what that entry says.
pub proof fn law_path_is_in_a_tree_under_any_spelling(t: Seq<(Seq<u8>, InfoView)>, p: Seq<u8>)
    ensures
        in_tree(t, bytes_key(p)) <==> has_path(t, p),
        distinct_paths(t) ==> forall|i: int|
            0 <= i < t.len() && same_path(byte_chars((#[trigger] t[i]).0), byte_chars(p))
                ==> info_at(t, bytes_key(p)) == t[i].1,
{
    let key = bytes_key(p);
    assert forall|i: int| 0 <= i < t.len() implies at_key(t, key, i) == same_path(
        byte_chars((#[trigger] t[i]).0),
        byte_chars(p),
    ) by {
        law_key_identifies_path(byte_chars(t[i].0), byte_chars(p));
    }
    if in_tree(t, key) {
        let i = choose|i: int| #[trigger] at_key(t, key, i);
        assert(same_path(byte_chars(t[i].0), byte_chars(p)));
    }
    if has_path(t, p) {
        let i = choose|i: int|
            0 <= i < t.len() && same_path(byte_chars((#[trigger] t[i]).0), byte_chars(p));
        assert(at_key(t, key, i));
    }
    if distinct_paths(t) {
        assert forall|i: int|
            0 <= i < t.len() && same_path(
                byte_chars((#[trigger] t[i]).0),
                byte_chars(p),
            ) implies info_at(t, key) == t[i].1 by {
            assert(at_key(t, key, i));
            let j = choose|j: int| #[trigger] at_key(t, key, j);
            if i < j {
                assert(bytes_key(t[i].0) != bytes_key(t[j].0));
            } else if j < i {
                assert(bytes_key(t[j].0) != bytes_key(t[i].0));
            }
        }
    }
}

/// Whether two entries are the same in everything that is compared, path and
/// target by their components.
pub open spec fn same_entry(
    g: (Seq<u8>, InfoView),
    r: (Seq<u8>, InfoView),
    ignore_ownership: bool,
) -> bool {
    &&& same_path(byte_chars(g.0), byte_chars(r.0))
    &&& g.1.kind == r.1.kind
    &&& g.1.mode == r.1.mode
    &&& !ignore_ownership ==> g.1.uid == r.1.uid && g.1.gid == r.1.gid
    &&& match (g.1.target, r.1.target) {
        (Some(x), Some(y)) => same_path(byte_chars(x), byte_chars(y)),
        (None, None) => true,
        _ => false,
    }
    &&& g.1.kind == EntryKind::File ==> g.1.size == r.1.size && g.1.sha256 == r.1.sha256
}

/// Whether one of the entries of `t` is the same as `g`.
pub open spec fn has_entry(
    t: Seq<(Seq<u8>, InfoView)>,
    g: (Seq<u8>, InfoView),
    ignore_ownership: bool,
) -> bool {
    exists|j: int| 0 <= j < t.len() && same_entry(g, #[trigger] t[j], ignore_ownership)
}

proof fn lemma_found(
    g: (Seq<u8>, InfoView),
    r: Seq<(Seq<u8>, InfoView)>,
    ignore_ownership: bool,
)
    requires
        distinct_paths(r),
    ensures
        has_entry(r, g, ignore_ownership) <==> in_tree(r, bytes_key(g.0)) && entries_agree(
            g.1,
            info_at(r, bytes_key(g.0)),
            ignore_ownership,
        ),
{
    law_path_is_in_a_tree_under_any_spelling(r, g.0);
    let info = info_at(r, bytes_key(g.0));
    if let (Some(x), Some(y)) = (g.1.target, info.target) {
        law_targets_are_compared_as_paths(x, y);
    }
    if has_entry(r, g, ignore_ownership) {
        let j = choose|j: int|
            0 <= j < r.len() && same_entry(g, #[trigger] r[j], ignore_ownership);
        assert(same_path(byte_chars(r[j].0), byte_chars(g.0)));
    }
    if in_tree(r, bytes_key(g.0)) && entries_agree(g.1, info, ignore_ownership) {
        let j = choose|j: int|
            0 <= j < r.len() && same_path(byte_chars((#[trigger] r[j]).0), byte_chars(g.0));
        assert(same_entry(g, r[j], ignore_ownership));
    }
}

/// A report is clean exactly when every entry of the generated tree is in the
/// reference, the same in everything that is compared, and every path of the
/// reference is in the generated tree.
pub proof fn law_clean_iff_the_entries_are_the_same(
    report: VerifyReport,
    g: Seq<(Seq<u8>, InfoView)>,
    r: Seq<(Seq<u8>, InfoView)>,
    ignore_ownership: bool,
)
    requires
        report.reports(g, r, ignore_ownership),
        distinct_paths(r),
    ensures
        (report.only_in_generated@.len() == 0 && report.only_in_reference@.len() == 0
            && report.differences@.len() == 0) <==> (forall|i: int|
            0 <= i < g.len() ==> has_entry(r, #[trigger] g[i], ignore_ownership)) && (forall|
            j: int,
        |
            0 <= j < r.len() ==> has_path(g, (#[trigger] r[j]).0)),
{
    law_clean_iff_trees_agree(report, g, r, ignore_ownership);
    assert forall|i: int| 0 <= i < g.len() implies has_entry(
        r,
        #[trigger] g[i],
        ignore_ownership,
    ) == (in_tree(r, bytes_key(g[i].0)) && entries_agree(
        g[i].1,
        info_at(r, bytes_key(g[i].0)),
        ignore_ownership,
    )) by {
        lemma_found(g[i], r, ignore_ownership);
    }
    assert forall|j: int| 0 <= j < r.len() implies has_path(g, (#[trigger] r[j]).0) == in_tree(
        g,
        bytes_key(r[j].0),
    ) by {
        law_path_is_in_a_tree_under_any_spelling(g, r[j].0);
    }
}

/// A report on two trees is not clean where an entry of both has targets that
/// are not the same path.
pub proof fn law_other_target_is_not_clean(
    report: VerifyReport,
    g: Seq<(Seq<u8>, InfoView)>,
    r: Seq<(Seq<u8>, InfoView)>,
    ignore_ownership: bool,
    i: int,
    j: int,
    x: Seq<u8>,
    y: Seq<u8>,
)
    requires
        report.reports(g, r, ignore_ownership),
        distinct_paths(r),
        0 <= i < g.len(),
        0 <= j < r.len(),
        same_path(byte_chars(g[i].0), byte_chars(r[j].0)),
        g[i].1.target == Some(x),
        r[j].1.target == Some(y),
        !same_path(byte_chars(x), byte_chars(y)),
    ensures
        report.only_in_generated@.len() > 0 || report.only_in_reference@.len() > 0
            || report.differences@.len() > 0,
{
    law_clean_iff_the_entries_are_the_same(report, g, r, ignore_ownership);
    if has_entry(r, g[i], ignore_ownership) {
        let k = choose|k: int|
            0 <= k < r.len() && same_entry(g[i], #[trigger] r[k], ignore_ownership);
        law_key_identifies_path(byte_chars(g[i].0), byte_chars(r[j].0));
        law_key_identifies_path(byte_chars(g[i].0), byte_chars(r[k].0));
        assert(bytes_key(r[j].0) == bytes_key(r[k].0));
        assert(j == k);
    }
}

/// The paths that are reported as missing are those, in order, that no entry of
/// the other tree has.
pub proof fn law_missing_paths_are_in_order(
    a: Seq<(Seq<u8>, InfoView)>,
    b: Seq<(Seq<u8>, InfoView)>,
)
    ensures
        missing(a, b) == a.filter(|x: (Seq<u8>, InfoView)| !has_path(b, x.0)).map_values(
            |x: (Seq<u8>, InfoView)| x.0,
        ),
    decreases a.len(),
{
    reveal(Seq::filter);
    let gone = |x: (Seq<u8>, InfoView)| !has_path(b, x.0);
    let path = |x: (Seq<u8>, InfoView)| x.0;
    if a.len() > 0 {
        let rest = a.drop_last();
        law_missing_paths_are_in_order(rest, b);
        law_path_is_in_a_tree_under_any_spelling(b, a.last().0);
        if gone(a.last()) {
            assert(rest.filter(gone).push(a.last()).map_values(path) =~= rest.filter(
                gone,
            ).map_values(path).push(a.last().0));
        }
    } else {
        assert(a.filter(gone).map_values(path) =~= Seq::empty());
    }
}

/// What is reported of entries that both trees have is what differs between
/// those with the same path, each line under the path that the generated tree
/// has for it.
pub proof fn law_differences_are_between_entries_of_one_path(
    g: Seq<(Seq<u8>, InfoView)>,
    r: Seq<(Seq<u8>, InfoView)>,
    ignore_ownership: bool,
    path: Seq<u8>,
    detail: Seq<char>,
)
    requires
        distinct_paths(r),
    ensures
        all_differences(g, r, ignore_ownership).contains((path, detail)) <==> exists|
            i: int,
            j: int,
        |
            #![trigger g[i], r[j]]
            0 <= i < g.len() && 0 <= j < r.len() && g[i].0 == path && same_path(
                byte_chars(r[j].0),
                byte_chars(path),
            ) && differences(g[i].1, r[j].1, ignore_ownership).contains(detail),
    decreases g.len(),
{
    let all = all_differences(g, r, ignore_ownership);
    if g.len() > 0 {
        let rest = g.drop_last();
        let before = all_differences(rest, r, ignore_ownership);
        law_differences_are_between_entries_of_one_path(rest, r, ignore_ownership, path, detail);
        let last = g.len() - 1;
        let p = g[last].0;
        law_path_is_in_a_tree_under_any_spelling(r, p);
        let found = differences(g[last].1, info_at(r, bytes_key(p)), ignore_ownership);
        let added = at_path(p, found);
        if all.contains((path, detail)) {
            let k = choose|k: int| 0 <= k < all.len() && all[k] == (path, detail);
            if k < before.len() {
                assert(before[k] == (path, detail));
                let (i, j) = choose|i: int, j: int|
                    #![trigger rest[i], r[j]]
                    0 <= i < rest.len() && 0 <= j < r.len() && rest[i].0 == path && same_path(
                        byte_chars(r[j].0),
                        byte_chars(path),
                    ) && differences(rest[i].1, r[j].1, ignore_ownership).contains(detail);
                assert(g[i] == rest[i]);
                assert(r[j] == r[j]);
            } else {
                assert(added[k - before.len()] == (path, detail));
                assert(found[k - before.len()] == detail);
                let j = choose|j: int|
                    0 <= j < r.len() && same_path(byte_chars((#[trigger] r[j]).0), byte_chars(p));
                assert(g[last].0 == path && r[j].1 == info_at(r, bytes_key(p)));
            }
        }
        if exists|i: int, j: int|
            #![trigger g[i], r[j]]
            0 <= i < g.len() && 0 <= j < r.len() && g[i].0 == path && same_path(
                byte_chars(r[j].0),
                byte_chars(path),
            ) && differences(g[i].1, r[j].1, ignore_ownership).contains(detail) {
            let (i, j) = choose|i: int, j: int|
                #![trigger g[i], r[j]]
                0 <= i < g.len() && 0 <= j < r.len() && g[i].0 == path && same_path(
                    byte_chars(r[j].0),
                    byte_chars(path),
                ) && differences(g[i].1, r[j].1, ignore_ownership).contains(detail);
            if i < rest.len() {
                assert(rest[i] == g[i]);
                assert(before.contains((path, detail)));
                let k = choose|k: int| 0 <= k < before.len() && before[k] == (path, detail);
                assert(all[k] == (path, detail));
            } else {
                assert(has_path(r, p));
                assert(r[j].1 == info_at(r, bytes_key(p)));
                let k = choose|k: int| 0 <= k < found.len() && found[k] == detail;
                assert(added[k] == (path, detail));
                assert(all[before.len() + k] == (path, detail));
            }
        }
    }
}

// ── Laws on reports ─────────────────────────────────────────────────────────

/// Whether `t` is `n` in octal, with four digits at least.
pub open spec fn is_octal(t: Seq<char>, n: nat) -> bool {
    &&& t.len() >= 4
    &&& t.len() > 4 ==> t[0] != '0'
    &&& forall|i: int| 0 <= i < t.len() ==> '0' <= #[trigger] t[i] <= '7'
    &&& value_of(t, 8) == n
}

proof fn lemma_zeros_count_nothing(zeros: nat, t: Seq<char>)
    ensures
        value_of(Seq::new(zeros, |i: int| '0') + t, 8) == value_of(t, 8),
    decreases zeros + t.len(),
{
    let z = Seq::new(zeros, |i: int| '0');
    if t.len() > 0 {
        lemma_zeros_count_nothing(zeros, t.drop_last());
        assert((z + t).drop_last() =~= z + t.drop_last());
        assert((z + t).last() == t.last());
    } else if zeros > 0 {
        let fewer = Seq::new((zeros - 1) as nat, |i: int| '0');
        lemma_zeros_count_nothing((zeros - 1) as nat, t);
        assert((z + t).drop_last() =~= fewer + t);
        assert((z + t).last() == '0');
    } else {
        assert(z + t =~= t);
    }
}

/// Permission bits are shown in octal.
pub proof fn law_mode_is_shown_in_octal(mode: u32)
    ensures
        is_octal(mode_text(mode), mode as nat),
{
    let t = number_text(mode as nat, 8);
    law_number_has_its_value(mode as nat, 8);
    if t.len() < 4 {
        lemma_zeros_count_nothing((4 - t.len()) as nat, t);
    } else if mode == 0 {
        assert(t.len() == 1);
    }
}

/// How many of six things hold.
pub open spec fn how_many(a: bool, b: bool, c: bool, d: bool, e: bool, f: bool) -> int {
    (if a {
        1int
    } else {
        0
    }) + (if b {
        1int
    } else {
        0
    }) + (if c {
        1int
    } else {
        0
    }) + (if d {
        1int
    } else {
        0
    }) + (if e {
        1int
    } else {
        0
    }) + (if f {
        1int
    } else {
        0
    })
}

/// Entries of different types differ in one line, which names the types. Those
/// of one type differ in one line for each attribute that does, which has the
/// generated value before the one of the reference.
pub proof fn law_each_attribute_has_its_line(g: InfoView, r: InfoView, ignore_ownership: bool)
    ensures
        g.kind != r.kind ==> differences(g, r, ignore_ownership) == seq![
            "type mismatch: generated="@ + g.kind.label() + " reference="@ + r.kind.label(),
        ],
        g.kind == r.kind ==> differences(g, r, ignore_ownership).len() == how_many(
            g.mode != r.mode,
            !ignore_ownership && g.uid != r.uid,
            !ignore_ownership && g.gid != r.gid,
            !same_target(g.target, r.target),
            g.kind == EntryKind::File && g.size != r.size,
            g.kind == EntryKind::File && g.sha256 != r.sha256,
        ),
        g.kind == r.kind && g.mode != r.mode ==> differences(g, r, ignore_ownership).contains(
            "mode: generated="@ + mode_text(g.mode) + " reference="@ + mode_text(r.mode),
        ),
        g.kind == r.kind && !ignore_ownership && g.uid != r.uid ==> differences(
            g,
            r,
            ignore_ownership,
        ).contains(
            "uid: generated="@ + number_text(g.uid as nat, 10) + " reference="@ + number_text(
                r.uid as nat,
                10,
            ),
        ),
        g.kind == r.kind && !ignore_ownership && g.gid != r.gid ==> differences(
            g,
            r,
            ignore_ownership,
        ).contains(
            "gid: generated="@ + number_text(g.gid as nat, 10) + " reference="@ + number_text(
                r.gid as nat,
                10,
            ),
        ),
        g.kind == r.kind && !same_target(g.target, r.target) ==> differences(
            g,
            r,
            ignore_ownership,
        ).contains(
            "symlink target: generated="@ + target_text(g.target) + " reference="@ + target_text(
                r.target,
            ),
        ),
        g.kind == r.kind && g.kind == EntryKind::File && g.size != r.size ==> differences(
            g,
            r,
            ignore_ownership,
        ).contains(
            "size: generated="@ + number_text(g.size as nat, 10) + " reference="@ + number_text(
                r.size as nat,
                10,
            ),
        ),
        g.kind == r.kind && g.kind == EntryKind::File && g.sha256 != r.sha256 ==> differences(
            g,
            r,
            ignore_ownership,
        ).contains("sha256 mismatch"@),
{
    if g.kind == r.kind {
        let none = Seq::<Seq<char>>::empty();
        let m = versus("mode: generated="@, mode_text(g.mode), mode_text(r.mode));
        let a = noted(none, g.mode != r.mode, m);
        let u = versus(
            "uid: generated="@,
            number_text(g.uid as nat, 10),
            number_text(r.uid as nat, 10),
        );
        let b = noted(a, !ignore_ownership && g.uid != r.uid, u);
        let w = versus(
            "gid: generated="@,
            number_text(g.gid as nat, 10),
            number_text(r.gid as nat, 10),
        );
        let c = noted(b, !ignore_ownership && g.gid != r.gid, w);
        let t = versus(
            "symlink target: generated="@,
            target_text(g.target),
            target_text(r.target),
        );
        let d = noted(c, !same_target(g.target, r.target), t);
        let s = versus(
            "size: generated="@,
            number_text(g.size as nat, 10),
            number_text(r.size as nat, 10),
        );
        let e = noted(d, g.kind == EntryKind::File && g.size != r.size, s);
        let h = g.kind == EntryKind::File && g.sha256 != r.sha256;
        lemma_note_stays(none, g.mode != r.mode, m);
        lemma_note_stays(a, !ignore_ownership && g.uid != r.uid, u);
        lemma_note_stays(b, !ignore_ownership && g.gid != r.gid, w);
        lemma_note_stays(c, !same_target(g.target, r.target), t);
        lemma_note_stays(d, g.kind == EntryKind::File && g.size != r.size, s);
        lemma_note_stays(e, h, "sha256 mismatch"@);
    }
}

proof fn lemma_note_stays(s: Seq<Seq<char>>, differs: bool, d: Seq<char>)
    ensures
        forall|x: Seq<char>| #[trigger] s.contains(x) ==> noted(s, differs, d).contains(x),
        differs ==> noted(s, differs, d).contains(d),
{
    let after = noted(s, differs, d);
    assert forall|x: Seq<char>| #[trigger] s.contains(x) implies after.contains(x) by {
        let i = choose|i: int| 0 <= i < s.len() && s[i] == x;
        assert(after[i] == x);
    }
    if differs {
        assert(after[s.len() as int] == d);
    }
}

/// A target in a report is `None`, or stands in brackets behind `Some`: text as
/// the `Debug` form of a path has it.
pub proof fn law_target_is_shown_in_brackets(t: Seq<u8>)
    ensures
        target_text(None) == "None"@,
        valid_utf8(t) ==> target_text(Some(t)) == "Some("@ + debug_path(decode_utf8(t)) + ")"@,
        !valid_utf8(t) ==> "Some(\""@.is_prefix_of(target_text(Some(t))) && "\")"@.is_suffix_of(
            target_text(Some(t)),
        ),
{
    if !valid_utf8(t) {
        reveal_strlit("Some(");
        reveal_strlit("\"");
        reveal_strlit(")");
        reveal_strlit("Some(\"");
        reveal_strlit("\")");
        let all = target_text(Some(t));
        assert("Some(\""@ =~= all.subrange(0, 6));
        assert("\")"@ =~= all.subrange(all.len() - 2, all.len() as int));
    }
}

/// A byte that is not text is shown by two hexadecimal digits behind `\x`, with
/// the upper half first.
pub proof fn law_stray_byte_is_shown_in_hex(byte: u8)
    ensures
        escaped_byte(byte).len() == 4,
        escaped_byte(byte)[0] == '\\',
        escaped_byte(byte)[1] == 'x',
        exists|i: int, j: int|
            0 <= i < 16 && 0 <= j < 16 && byte == 16 * i + j && escaped_byte(byte)[2]
                == #[trigger] "0123456789ABCDEF"@[i] && escaped_byte(byte)[3]
                == #[trigger] "0123456789ABCDEF"@[j],
{
    reveal_strlit("0123456789ABCDEF");
    let digits = "0123456789ABCDEF"@;
    let i = byte as int / 16;
    let j = byte as int % 16;
    assert(digits[i] == upper_hex(i as nat));
    assert(digits[j] == upper_hex(j as nat));
}

proof fn lemma_first_scalar_leads(bytes: Seq<u8>, n: int)
    requires
        0 < n <= bytes.len(),
        valid_utf8(bytes.take(n)),
    ensures
        leading_char(bytes) == length_of_first_scalar(bytes.take(n)),
        1 <= leading_char(bytes) <= n,
        leading_char(bytes) <= 4,
        valid_utf8(bytes.skip(leading_char(bytes)).take(n - leading_char(bytes))),
{
    let t = bytes.take(n);
    let m = length_of_first_scalar(t);
    assert(valid_first_scalar(t));
    assert(1 <= m <= 4 && m <= n);
    let one = bytes.take(m);
    assert(forall|i: int| 0 <= i < m ==> one[i] == t[i]);
    assert(valid_first_scalar(one));
    assert(pop_first_scalar(one) =~= Seq::empty());
    assert(valid_utf8(pop_first_scalar(one)));
    assert(valid_utf8(one));
    assert forall|c: int| 0 < c < m implies !valid_utf8(#[trigger] bytes.take(c)) by {
        let part = bytes.take(c);
        assert(part[0] == t[0]);
    }
    assert(bytes.skip(m).take(n - m) =~= pop_first_scalar(t));
}

/// The text that bytes are said to start with is the longest that they start
/// with.
pub proof fn law_leading_text_is_the_longest(bytes: Seq<u8>, n: int)
    requires
        0 <= n <= bytes.len(),
        valid_utf8(bytes.take(n)),
    ensures
        n <= leading_text(bytes) <= bytes.len(),
        valid_utf8(bytes.take(leading_text(bytes))),
    decreases n,
{
    lemma_leading_text(bytes);
    if n > 0 {
        lemma_first_scalar_leads(bytes, n);
        let m = leading_char(bytes);
        law_leading_text_is_the_longest(bytes.skip(m), n - m);
    }
}

/// Whether bytes start with no text.
pub open spec fn starts_with_no_text(bytes: Seq<u8>) -> bool {
    forall|n: int| 0 < n <= bytes.len() ==> !valid_utf8(#[trigger] bytes.take(n))
}

proof fn lemma_leading_text_ends(t: Seq<u8>, rest: Seq<u8>)
    requires
        valid_utf8(t),
        starts_with_no_text(rest),
    ensures
        leading_text(t + rest) == t.len(),
    decreases t.len(),
{
    let all = t + rest;
    if t.len() == 0 {
        assert(all =~= rest);
        lemma_leading_text(rest);
        if leading_text(rest) > 0 {
            assert(!valid_utf8(rest.take(leading_text(rest))));
        }
    } else {
        let n = t.len() as int;
        assert(all.take(n) =~= t);
        lemma_first_scalar_leads(all, n);
        let m = leading_char(all);
        assert(all.skip(m).take(n - m) =~= t.skip(m));
        assert(all.skip(m) =~= t.skip(m) + rest);
        lemma_leading_text_ends(t.skip(m), rest);
    }
}

/// In a path that is not text, the longest stretches of text are shown as the
/// `Debug` form of a path has them, and each byte that starts none is escaped.
pub proof fn law_text_and_stray_bytes_are_shown_apart(t: Seq<u8>, rest: Seq<u8>)
    requires
        valid_utf8(t),
        t.len() > 0,
        starts_with_no_text(rest),
    ensures
        escaped(t + rest) == unquoted(debug_path(decode_utf8(t))) + escaped(rest),
        rest.len() == 0 ==> escaped(rest) == Seq::<char>::empty(),
        rest.len() > 0 ==> escaped(rest) == escaped_byte(rest[0]) + escaped(rest.skip(1)),
        !valid_utf8(t + rest) ==> debug_bytes(t + rest) == "\""@ + escaped(t + rest) + "\""@,
        rest.len() > 0 ==> debug_bytes(rest) == "\""@ + escaped(rest) + "\""@,
{
    lemma_leading_text_ends(t, rest);
    lemma_leading_text(rest);
    if leading_text(rest) > 0 {
        assert(!valid_utf8(rest.take(leading_text(rest))));
    }
    assert((t + rest).take(t.len() as int) =~= t);
    assert((t + rest).skip(t.len() as int) =~= rest);
    if rest.len() > 0 {
        assert(rest.take(rest.len() as int) =~= rest);
    }
}

/// What is shown between quotes is what the `Debug` form has between them.
pub proof fn law_quotes_go(text: Seq<char>)
    ensures
        unquoted(seq!['"'] + text + seq!['"']) == text,
{
    assert(unquoted(seq!['"'] + text + seq!['"']) =~= text);
}

/// Each type has a name of its own.
pub proof fn law_types_have_their_names(is_file: bool, is_dir: bool)
    ensures
        EntryKind::File.label() == "File"@,
        EntryKind::Dir.label() == "Dir"@,
        EntryKind::Symlink.label() == "Symlink"@,
        EntryKind::Other.label() == "Other"@,
        kind_of(true, is_file, is_dir) == EntryKind::Symlink,
        kind_of(false, true, is_dir) == EntryKind::File,
        kind_of(false, false, true) == EntryKind::Dir,
        kind_of(false, false, false) == EntryKind::Other,
{
}

} // verus!
