//! SHA-256 digests and their text form.

use crate::image::digest_hex;
use crate::text::{same_text, starts_with};
use vstd::prelude::*;
use vstd::string::*;

verus! {

/// The character of a hexadecimal digit.
pub open spec fn hex_char(d: nat) -> char {
    if d < 10 {
        (48 + d) as char
    } else {
        (87 + d) as char
    }
}

/// Bytes in lower case hex, two digits for each.
pub open spec fn hex_text(bytes: Seq<u8>) -> Seq<char>
    decreases bytes.len(),
{
    if bytes.len() == 0 {
        Seq::empty()
    } else {
        hex_text(bytes.drop_last()).push(hex_char(bytes.last() as nat / 16)).push(
            hex_char(bytes.last() as nat % 16),
        )
    }
}

fn hex_digit(d: u8) -> (r: char)
    requires
        d < 16,
    ensures
        r == hex_char(d as nat),
{
    if d < 10 {
        (48 + d) as char
    } else {
        (87 + d) as char
    }
}

/// Bytes in lower case hex.
pub fn hex_encode(bytes: &[u8]) -> (r: String)
    ensures
        r@ == hex_text(bytes@),
{
    let mut s = String::new();
    assert(bytes@.take(0) =~= Seq::empty());
    assert(s@ =~= hex_text(bytes@.take(0)));
    for i in 0..bytes.len()
        invariant
            s@ == hex_text(bytes@.take(i as int)),
    {
        assert(bytes@.take(i + 1).drop_last() =~= bytes@.take(i as int));
        s.push(hex_digit(bytes[i] / 16));
        s.push(hex_digit(bytes[i] % 16));
    }
    assert(bytes@.take(bytes@.len() as int) =~= bytes@);
    s
}

/// What `sha2::Sha256` computes of bytes.
pub uninterp spec fn sha256_of(bytes: Seq<u8>) -> Seq<u8>;

/// Calls `sha2::Sha256::digest`. Claims that the digest depends on the bytes
/// alone and has 32 bytes.
#[verifier::external_body]
fn sha256(bytes: &[u8]) -> (r: Vec<u8>)
    ensures
        r@ == sha256_of(bytes@),
        r@.len() == 32,
{
    <sha2::Sha256 as sha2::Digest>::digest(bytes).to_vec()
}

/// The SHA-256 of bytes in hex.
pub fn sha256_hex(data: &[u8]) -> (r: String)
    ensures
        r@ == hex_text(sha256_of(data@)),
{
    hex_encode(sha256(data).as_slice())
}

/// The digest of bytes, with its algorithm.
pub open spec fn digest_text(data: Seq<u8>) -> Seq<char> {
    "sha256:"@ + hex_text(sha256_of(data))
}

/// A digest is that of a SHA-256 hash.
pub proof fn lemma_digest_text(data: Seq<u8>)
    ensures
        digest_hex(digest_text(data)) == Some(hex_text(sha256_of(data))),
{
    reveal_strlit("sha256:");
    assert("sha256:"@ =~= digest_text(data).subrange(0, 7));
    assert(digest_text(data).skip(7) =~= hex_text(sha256_of(data)));
}

/// The digest of bytes, with its algorithm.
pub fn content_digest(data: &[u8]) -> (r: String)
    ensures
        r@ == digest_text(data@),
        r@ == "sha256:"@ + hex_text(sha256_of(data@)),
{
    let mut r = "sha256:".to_owned();
    r.append(sha256_hex(data).as_str());
    r
}

/// Whether content with a given hash is what a digest names.
#[derive(Clone, Copy, Debug, PartialEq, Eq, Structural)]
pub enum DigestCheck {
    /// The hash is that of the digest.
    Match,
    /// The hash is another one.
    Mismatch,
    /// The digest is not a SHA-256 digest.
    Unsupported,
}

/// Whether content whose SHA-256 in hex is `actual` is what `digest` names.
pub open spec fn digest_check(digest: Seq<char>, actual: Seq<char>) -> DigestCheck {
    match digest_hex(digest) {
        None => DigestCheck::Unsupported,
        Some(hex) => if hex == actual {
            DigestCheck::Match
        } else {
            DigestCheck::Mismatch
        },
    }
}

/// Whether content whose SHA-256 in hex is `actual` is what `digest` names.
pub fn check_digest(digest: &str, actual: &str) -> (r: DigestCheck)
    ensures
        r == digest_check(digest@, actual@),
        r is Match <==> digest@ == "sha256:"@ + actual@,
        r is Unsupported <==> !"sha256:"@.is_prefix_of(digest@),
{
    proof {
        reveal_strlit("sha256:");
        let named = "sha256:"@ + actual@;
        assert("sha256:"@ =~= named.subrange(0, 7));
        assert(named.skip(7) =~= actual@);
        if "sha256:"@.is_prefix_of(digest@) {
            assert(digest@ =~= digest@.subrange(0, 7) + digest@.skip(7));
        }
    }
    if !starts_with(digest, "sha256:") {
        return DigestCheck::Unsupported;
    }
    let hex = digest.substring_char(7, digest.unicode_len());
    assert(hex@ =~= digest@.skip(7));
    if same_text(hex, actual) {
        DigestCheck::Match
    } else {
        DigestCheck::Mismatch
    }
}

// ── Laws ────────────────────────────────────────────────────────────────────

/// Hex tells bytes apart.
pub proof fn law_hex_identifies_bytes(a: Seq<u8>, b: Seq<u8>)
    requires
        hex_text(a) == hex_text(b),
    ensures
        a == b,
    decreases a.len(),
{
    lemma_hex_len(a);
    lemma_hex_len(b);
    if a.len() == 0 {
        assert(a =~= b);
    } else {
        let x = hex_text(a);
        let y = hex_text(b);
        let a0 = a.drop_last();
        let b0 = b.drop_last();
        assert(x.drop_last().drop_last() =~= hex_text(a0));
        assert(y.drop_last().drop_last() =~= hex_text(b0));
        law_hex_identifies_bytes(a0, b0);
        assert(x[x.len() - 1] == y[y.len() - 1]);
        assert(x[x.len() - 2] == y[y.len() - 2]);
        let p = a.last() as nat;
        let q = b.last() as nat;
        lemma_hex_char(p / 16, q / 16);
        lemma_hex_char(p % 16, q % 16);
        assert(p == q);
        assert(a0.push(a.last()) =~= a);
        assert(b0.push(b.last()) =~= b);
    }
}

proof fn lemma_hex_char(d: nat, e: nat)
    requires
        d < 16,
        e < 16,
        hex_char(d) == hex_char(e),
    ensures
        d == e,
{
}

proof fn lemma_hex_len(a: Seq<u8>)
    ensures
        hex_text(a).len() == 2 * a.len(),
    decreases a.len(),
{
    if a.len() > 0 {
        lemma_hex_len(a.drop_last());
    }
}

/// Content is what its own digest names, and any content with the same digest
/// has the same hash.
pub proof fn law_own_digest_matches(data: Seq<u8>, other: Seq<u8>)
    ensures
        digest_check(digest_text(data), hex_text(sha256_of(other))) == DigestCheck::Match
            <==> sha256_of(data) == sha256_of(other),
{
    lemma_digest_text(data);
    if hex_text(sha256_of(data)) == hex_text(sha256_of(other)) {
        law_hex_identifies_bytes(sha256_of(data), sha256_of(other));
    }
}

/// The value of a hexadecimal digit in lower case, or 16 for anything else.
pub open spec fn hex_value(c: char) -> nat {
    if '0' <= c <= '9' {
        (c as nat - '0' as nat) as nat
    } else if 'a' <= c <= 'f' {
        (c as nat - 'a' as nat + 10) as nat
    } else {
        16
    }
}

/// Hex has two lower case digits for every byte, in order, the higher half
/// first.
pub proof fn law_hex_spells_every_byte(bytes: Seq<u8>, i: int)
    requires
        0 <= i < bytes.len(),
    ensures
        hex_text(bytes).len() == 2 * bytes.len(),
        hex_value(hex_text(bytes)[2 * i]) < 16,
        hex_value(hex_text(bytes)[2 * i + 1]) < 16,
        bytes[i] == 16 * hex_value(hex_text(bytes)[2 * i]) + hex_value(hex_text(bytes)[2 * i + 1]),
    decreases bytes.len(),
{
    lemma_hex_len(bytes);
    lemma_hex_len(bytes.drop_last());
    if i < bytes.len() - 1 {
        law_hex_spells_every_byte(bytes.drop_last(), i);
    }
}

} // verus!
