//! Text and byte helpers shared by the other modules: comparing, splitting,
//! trimming and writing numbers.

use vstd::prelude::*;
use vstd::string::*;
use vstd::utf8::{decode_utf8, valid_utf8};

verus! {

/// `String::push` appends the given character.
pub assume_specification[ String::push ](s: &mut String, c: char)
    ensures
        final(s)@ == old(s)@.push(c),
;

// ── Comparing ───────────────────────────────────────────────────────────────

/// Whether two byte strings are the same.
pub fn same_bytes(a: &[u8], b: &[u8]) -> (r: bool)
    ensures
        r == (a@ == b@),
{
    if a.len() != b.len() {
        return false;
    }
    for i in 0..a.len()
        invariant
            a.len() == b.len(),
            forall|j: int| 0 <= j < i ==> a@[j] == b@[j],
    {
        if a[i] != b[i] {
            return false;
        }
    }
    assert(a@ =~= b@);
    true
}

/// Whether two texts are the same.
pub fn same_text(a: &str, b: &str) -> (r: bool)
    ensures
        r == (a@ == b@),
{
    proof {
        vstd::utf8::encode_utf8_decode_utf8(a@);
        vstd::utf8::encode_utf8_decode_utf8(b@);
    }
    same_bytes(a.as_bytes(), b.as_bytes())
}

/// A copy of a byte string.
pub fn copy_bytes(v: &[u8]) -> (r: Vec<u8>)
    ensures
        r@ == v@,
{
    let mut r: Vec<u8> = Vec::new();
    r.extend_from_slice(v);
    assert(r@ =~= v@);
    r
}

/// The characters of `s`.
pub fn chars_of(s: &str) -> (r: Vec<char>)
    ensures
        r@ == s@,
{
    let mut r: Vec<char> = Vec::new();
    for c in it: s.chars()
        invariant
            r@ == it.seq().take(it.index() as int),
            it.seq() == s@,
    {
        r.push(c);
    }
    r
}

/// The text made of the characters `from..to` of `v`.
pub fn text_of(v: &Vec<char>, from: usize, to: usize) -> (r: String)
    requires
        from <= to <= v.len(),
    ensures
        r@ == v@.subrange(from as int, to as int),
{
    let mut r = String::new();
    for i in from..to
        invariant
            to <= v.len(),
            from <= i,
            r@ == v@.subrange(from as int, i as int),
    {
        r.push(v[i]);
    }
    r
}

/// Whether `s` begins with `prefix`.
pub fn starts_with(s: &str, prefix: &str) -> (r: bool)
    ensures
        r == prefix@.is_prefix_of(s@),
{
    let a = chars_of(s);
    let b = chars_of(prefix);
    if a.len() < b.len() {
        return false;
    }
    for i in 0..b.len()
        invariant
            a@ == s@,
            b@ == prefix@,
            a.len() >= b.len(),
            forall|j: int| 0 <= j < i ==> a@[j] == b@[j],
    {
        if a[i] != b[i] {
            proof {
                if prefix@.is_prefix_of(s@) {
                    assert(s@.subrange(0, prefix@.len() as int)[i as int] == s@[i as int]);
                }
            }
            return false;
        }
    }
    assert(prefix@ =~= s@.subrange(0, prefix@.len() as int));
    true
}

/// Whether `s` ends with `suffix`.
pub fn ends_with(s: &str, suffix: &str) -> (r: bool)
    ensures
        r == suffix@.is_suffix_of(s@),
{
    let a = chars_of(s);
    let b = chars_of(suffix);
    if a.len() < b.len() {
        return false;
    }
    let d: usize = a.len() - b.len();
    for i in 0..b.len()
        invariant
            a@ == s@,
            b@ == suffix@,
            a.len() >= b.len(),
            d == a.len() - b.len(),
            forall|j: int| 0 <= j < i ==> a@[d + j] == b@[j],
    {
        if a[d + i] != b[i] {
            proof {
                if suffix@.is_suffix_of(s@) {
                    assert(s@.subrange(d as int, s@.len() as int)[i as int] == s@[d + i]);
                }
            }
            return false;
        }
    }
    assert(suffix@ =~= s@.subrange(d as int, s@.len() as int));
    true
}

/// Whether `c` occurs in `s`.
pub fn contains_char(s: &str, c: char) -> (r: bool)
    ensures
        r == s@.contains(c),
{
    let a = chars_of(s);
    for i in 0..a.len()
        invariant
            a@ == s@,
            forall|j: int| 0 <= j < i ==> a@[j] != c,
    {
        if a[i] == c {
            assert(s@[i as int] == c);
            return true;
        }
    }
    false
}

// ── Bytes as text ───────────────────────────────────────────────────────────

/// What `String::from_utf8_lossy` makes of bytes that are not UTF-8.
pub uninterp spec fn replaced_utf8(bytes: Seq<u8>) -> Seq<char>;

/// Bytes as text, with what is not UTF-8 replaced.
pub open spec fn lossy_text(bytes: Seq<u8>) -> Seq<char> {
    if valid_utf8(bytes) {
        decode_utf8(bytes)
    } else {
        replaced_utf8(bytes)
    }
}

/// Calls `String::from_utf8_lossy`. Claims that valid UTF-8 comes out as the
/// text that it encodes, and names the result otherwise.
#[verifier::external_body]
pub(crate) fn text_lossy(bytes: &[u8]) -> (r: String)
    ensures
        valid_utf8(bytes@) ==> r@ == decode_utf8(bytes@),
        !valid_utf8(bytes@) ==> r@ == replaced_utf8(bytes@),
{
    String::from_utf8_lossy(bytes).into_owned()
}

/// Calls `String::from_utf8`. Claims that it succeeds on valid UTF-8 exactly,
/// with the text that the bytes encode.
#[verifier::external_body]
pub(crate) fn utf8_text(bytes: Vec<u8>) -> (r: Option<String>)
    ensures
        match r {
            Some(s) => valid_utf8(bytes@) && s@ == decode_utf8(bytes@),
            None => !valid_utf8(bytes@),
        },
{
    String::from_utf8(bytes).ok()
}

/// Bytes as text, each byte as the character with its code.
pub open spec fn byte_chars(bytes: Seq<u8>) -> Seq<char> {
    Seq::new(bytes.len(), |i: int| bytes[i] as char)
}

/// Bytes as text, each byte as the character with its code, so that different
/// bytes give different texts.
pub fn bytes_text(bytes: &[u8]) -> (r: String)
    ensures
        r@ == byte_chars(bytes@),
{
    let mut r = String::new();
    assert(r@ =~= byte_chars(bytes@).take(0));
    for i in 0..bytes.len()
        invariant
            r@ == byte_chars(bytes@).take(i as int),
    {
        r.push(bytes[i] as char);
        assert(r@ =~= byte_chars(bytes@).take(i + 1));
    }
    assert(byte_chars(bytes@).take(bytes@.len() as int) =~= byte_chars(bytes@));
    r
}

// ── Cutting ─────────────────────────────────────────────────────────────────

/// The position of the first `c` in `s`, or the length of `s` if there is none.
pub open spec fn first_at(s: Seq<char>, c: char) -> int
    decreases s.len(),
{
    if s.len() == 0 || s[0] == c {
        0
    } else {
        1 + first_at(s.drop_first(), c)
    }
}

/// The position of the last `c` in `s`, or -1 if there is none.
pub open spec fn last_at(s: Seq<char>, c: char) -> int
    decreases s.len(),
{
    if s.len() == 0 {
        -1
    } else if s.last() == c {
        s.len() - 1
    } else {
        last_at(s.drop_last(), c)
    }
}

pub proof fn lemma_first_at(s: Seq<char>, c: char, i: int)
    requires
        0 <= i <= s.len(),
        forall|j: int| 0 <= j < i ==> s[j] != c,
        i < s.len() ==> s[i] == c,
    ensures
        first_at(s, c) == i,
    decreases s.len(),
{
    if s.len() > 0 && s[0] != c {
        lemma_first_at(s.drop_first(), c, i - 1);
    }
}

pub proof fn lemma_last_at(s: Seq<char>, c: char, i: int)
    requires
        -1 <= i < s.len(),
        forall|j: int| i < j < s.len() ==> s[j] != c,
        i >= 0 ==> s[i] == c,
    ensures
        last_at(s, c) == i,
    decreases s.len(),
{
    if s.len() > 0 && s.last() != c {
        lemma_last_at(s.drop_last(), c, i);
    }
}

/// The position of the first `c` in `v`, or its length.
pub fn find_first(v: &Vec<char>, c: char) -> (r: usize)
    ensures
        r == first_at(v@, c),
        r <= v.len(),
        r < v.len() ==> v@[r as int] == c,
        forall|j: int| 0 <= j < r ==> v@[j] != c,
{
    let mut i: usize = 0;
    while i < v.len() && v[i] != c
        invariant
            i <= v.len(),
            forall|j: int| 0 <= j < i ==> v@[j] != c,
        decreases v.len() - i,
    {
        i = i + 1;
    }
    proof {
        lemma_first_at(v@, c, i as int);
    }
    i
}

/// The position of the last `c` in `v`, if there is one.
pub fn find_last(v: &Vec<char>, c: char) -> (r: Option<usize>)
    ensures
        match r {
            Some(i) => i == last_at(v@, c) && i < v.len() && v@[i as int] == c,
            None => last_at(v@, c) == -1,
        },
{
    let mut n: usize = v.len();
    while n > 0
        invariant
            n <= v.len(),
            forall|j: int| n <= j < v.len() ==> v@[j] != c,
        decreases n,
    {
        if v[n - 1] == c {
            proof {
                lemma_last_at(v@, c, n - 1);
            }
            return Some(n - 1);
        }
        n = n - 1;
    }
    proof {
        lemma_last_at(v@, c, -1);
    }
    None
}

// ── Splitting ───────────────────────────────────────────────────────────────

/// The texts of a sequence of strings.
pub open spec fn texts(v: Seq<String>) -> Seq<Seq<char>> {
    Seq::new(v.len(), |i: int| v[i]@)
}

/// The parts of `s` between occurrences of `sep`, in order. There is always
/// one part more than there are separators.
pub open spec fn split_on(s: Seq<char>, sep: char) -> Seq<Seq<char>>
    decreases s.len(),
{
    if s.len() == 0 {
        seq![Seq::empty()]
    } else {
        let before = split_on(s.drop_last(), sep);
        if s.last() == sep {
            before.push(Seq::empty())
        } else {
            before.drop_last().push(before.last().push(s.last()))
        }
    }
}

pub proof fn lemma_split_on_nonempty(s: Seq<char>, sep: char)
    ensures
        split_on(s, sep).len() >= 1,
    decreases s.len(),
{
    if s.len() > 0 {
        lemma_split_on_nonempty(s.drop_last(), sep);
    }
}

/// The parts of `s` between occurrences of `sep`.
pub fn split(s: &str, sep: char) -> (r: Vec<String>)
    ensures
        texts(r@) == split_on(s@, sep),
{
    let v = chars_of(s);
    let mut done: Vec<String> = Vec::new();
    let mut cur = String::new();
    assert(v@.take(0) =~= Seq::empty());
    assert(texts(done@).push(cur@) =~= split_on(v@.take(0), sep));
    for i in 0..v.len()
        invariant
            v@ == s@,
            texts(done@).push(cur@) == split_on(v@.take(i as int), sep),
    {
        let ghost before = split_on(v@.take(i as int), sep);
        proof {
            assert(v@.take(i + 1).drop_last() =~= v@.take(i as int));
            assert(before.drop_last() =~= texts(done@));
            assert(before.last() == cur@);
        }
        if v[i] == sep {
            done.push(cur);
            cur = String::new();
            assert(texts(done@) =~= before);
            assert(cur@ =~= Seq::empty());
        } else {
            cur.push(v[i]);
        }
    }
    assert(v@.take(v.len() as int) =~= s@);
    let ghost last = cur@;
    let ghost firsts = texts(done@);
    done.push(cur);
    assert(texts(done@) =~= firsts.push(last));
    done
}

/// A sequence of texts with `sep` between neighbours.
pub open spec fn join_with(parts: Seq<Seq<char>>, sep: char) -> Seq<char>
    decreases parts.len(),
{
    if parts.len() == 0 {
        Seq::empty()
    } else if parts.len() == 1 {
        parts[0]
    } else {
        join_with(parts.drop_last(), sep).push(sep) + parts.last()
    }
}

/// The strings of `parts` with `sep` between neighbours.
pub fn join(parts: &Vec<String>, sep: char) -> (r: String)
    ensures
        r@ == join_with(texts(parts@), sep),
{
    let mut r = String::new();
    assert(texts(parts@).take(0) =~= Seq::empty());
    for i in 0..parts.len()
        invariant
            r@ == join_with(texts(parts@).take(i as int), sep),
    {
        proof {
            assert(texts(parts@).take(i + 1).drop_last() =~= texts(parts@).take(i as int));
        }
        if i > 0 {
            r.push(sep);
        }
        r.append(parts[i].as_str());
        proof {
            if i == 0 {
                assert(r@ =~= parts@[0]@);
            }
        }
    }
    assert(texts(parts@).take(parts.len() as int) =~= texts(parts@));
    r
}

// ── Trimming ────────────────────────────────────────────────────────────────

/// `s` without the run of `c` at its start.
pub open spec fn trim_start_char(s: Seq<char>, c: char) -> Seq<char>
    decreases s.len(),
{
    if s.len() > 0 && s[0] == c {
        trim_start_char(s.drop_first(), c)
    } else {
        s
    }
}

/// `s` without the run of `c` at its end.
pub open spec fn trim_end_char(s: Seq<char>, c: char) -> Seq<char>
    decreases s.len(),
{
    if s.len() > 0 && s.last() == c {
        trim_end_char(s.drop_last(), c)
    } else {
        s
    }
}

/// `s` without the run of `c` at its end.
pub fn trim_end_matches(s: &str, c: char) -> (r: String)
    ensures
        r@ == trim_end_char(s@, c),
{
    let v = chars_of(s);
    let mut n: usize = v.len();
    assert(v@.take(n as int) =~= s@);
    while n > 0 && v[n - 1] == c
        invariant
            n <= v.len(),
            trim_end_char(v@.take(n as int), c) == trim_end_char(s@, c),
        decreases n,
    {
        assert(v@.take(n as int).drop_last() =~= v@.take(n - 1));
        n = n - 1;
    }
    assert(v@.take(n as int) =~= v@.subrange(0, n as int));
    text_of(&v, 0, n)
}

/// `char::is_whitespace`: whether `c` has the Unicode property White_Space.
pub uninterp spec fn unicode_white_space(c: char) -> bool;

/// Whether `c` is white space: below U+0080 the space and the controls from
/// tab to carriage return, above it what Unicode lists.
pub open spec fn is_white_space(c: char) -> bool {
    if (c as u32) < 0x80 {
        c == ' ' || 9 <= c as u32 <= 13
    } else {
        unicode_white_space(c)
    }
}

/// Calls `char::is_whitespace`. Claims the Unicode property White_Space of `c`,
/// which among the ASCII characters is had by U+0009 to U+000D and the space.
#[verifier::external_body]
fn whitespace(c: char) -> (r: bool)
    ensures
        (c as u32) >= 0x80 ==> r == unicode_white_space(c),
        (c as u32) < 0x80 ==> r == (c == ' ' || 9 <= c as u32 <= 13),
{
    c.is_whitespace()
}

/// `s` without the white space at its start.
pub open spec fn trim_start_spaces(s: Seq<char>) -> Seq<char>
    decreases s.len(),
{
    if s.len() > 0 && is_white_space(s[0]) {
        trim_start_spaces(s.drop_first())
    } else {
        s
    }
}

/// `s` without the white space at its end.
pub open spec fn trim_end_spaces(s: Seq<char>) -> Seq<char>
    decreases s.len(),
{
    if s.len() > 0 && is_white_space(s.last()) {
        trim_end_spaces(s.drop_last())
    } else {
        s
    }
}

/// `s` without the white space at its two ends.
pub open spec fn trimmed(s: Seq<char>) -> Seq<char> {
    trim_end_spaces(trim_start_spaces(s))
}

/// `s` without the white space at its two ends.
pub fn trim(s: &str) -> (r: String)
    ensures
        r@ == trimmed(s@),
{
    let v = chars_of(s);
    let mut a: usize = 0;
    assert(v@.skip(0) =~= s@);
    while a < v.len() && whitespace(v[a])
        invariant
            a <= v.len(),
            trim_start_spaces(v@.skip(a as int)) == trim_start_spaces(s@),
        decreases v.len() - a,
    {
        assert(v@.skip(a as int).drop_first() =~= v@.skip(a + 1));
        a = a + 1;
    }
    let ghost t = v@.skip(a as int);
    let mut n: usize = v.len();
    assert(v@.subrange(a as int, n as int) =~= t);
    while n > a && whitespace(v[n - 1])
        invariant
            a <= n <= v.len(),
            t == v@.skip(a as int),
            trim_end_spaces(v@.subrange(a as int, n as int)) == trim_end_spaces(t),
        decreases n,
    {
        assert(v@.subrange(a as int, n as int).drop_last() =~= v@.subrange(a as int, n - 1));
        n = n - 1;
    }
    text_of(&v, a, n)
}

// ── Letter case ─────────────────────────────────────────────────────────────

/// `str::to_lowercase`.
pub uninterp spec fn unicode_lowercase(s: Seq<char>) -> Seq<char>;

/// The lower case form of an ASCII character.
pub open spec fn ascii_lower(c: char) -> char {
    if 'A' <= c <= 'Z' {
        (c as u32 + 32) as char
    } else {
        c
    }
}

/// Whether all of `s` is ASCII.
pub open spec fn all_ascii(s: Seq<char>) -> bool {
    forall|i: int| 0 <= i < s.len() ==> (#[trigger] s[i] as u32) < 0x80
}

/// `s` in lower case.
pub open spec fn lowercased(s: Seq<char>) -> Seq<char> {
    if all_ascii(s) {
        Seq::new(s.len(), |i: int| ascii_lower(s[i]))
    } else {
        unicode_lowercase(s)
    }
}

/// Calls `str::to_lowercase`. Claims that an ASCII text has its capital letters
/// replaced by the small ones, and names the result otherwise.
#[verifier::external_body]
pub(crate) fn lowercase(s: &str) -> (r: String)
    ensures
        !all_ascii(s@) ==> r@ == unicode_lowercase(s@),
        all_ascii(s@) ==> r@ == lowercased(s@),
{
    s.to_lowercase()
}

// ── Numbers ─────────────────────────────────────────────────────────────────

/// The character of a digit below ten.
pub open spec fn digit_char(d: nat) -> char {
    (48 + d) as char
}

/// `n` written in `base` (at most ten), without leading zeros.
pub open spec fn number_text(n: nat, base: nat) -> Seq<char>
    decreases n,
    via number_text_decreases
{
    if base < 2 || n < base {
        seq![digit_char(n)]
    } else {
        number_text(n / base, base).push(digit_char(n % base))
    }
}

#[via_fn]
proof fn number_text_decreases(n: nat, base: nat) {
    assert(base >= 2 && n >= base ==> n / base < n) by (nonlinear_arith);
}

/// `n` written in `base`.
pub fn number(n: u64, base: u64) -> (r: String)
    requires
        2 <= base <= 10,
    ensures
        r@ == number_text(n as nat, base as nat),
    decreases n,
{
    let mut r = if n < base {
        String::new()
    } else {
        assert(n / base < n) by (nonlinear_arith)
            requires
                n >= base >= 2,
        ;
        number(n / base, base)
    };
    let d: u64 = n % base;
    let c: char = (48u8 + (d as u8)) as char;
    r.push(c);
    proof {
        if n < base {
            assert(n % base == n) by (nonlinear_arith)
                requires
                    n < base,
                    n >= 0,
            ;
            assert(r@ =~= seq![digit_char(n as nat)]);
        }
    }
    r
}


/// `s` with copies of `fill` before it up to a length of `width`.
pub open spec fn left_padded(s: Seq<char>, fill: char, width: nat) -> Seq<char> {
    if s.len() >= width {
        s
    } else {
        Seq::new((width - s.len()) as nat, |i: int| fill) + s
    }
}

/// `s` with copies of `fill` before it up to a length of `width`.
pub fn pad_left(s: &str, fill: char, width: usize) -> (r: String)
    ensures
        r@ == left_padded(s@, fill, width as nat),
{
    let n: usize = s.unicode_len();
    let mut r = String::new();
    if n < width {
        for i in 0..width - n
            invariant
                n < width,
                r@ == Seq::new(i as nat, |j: int| fill),
        {
            r.push(fill);
            assert(r@ =~= Seq::new((i + 1) as nat, |j: int| fill));
        }
    }
    r.append(s);
    assert(r@ =~= left_padded(s@, fill, width as nat));
    r
}

// ── Laws ────────────────────────────────────────────────────────────────────

/// The value of digits in a number system, most significant first.
pub open spec fn value_of(digits: Seq<char>, base: nat) -> nat
    decreases digits.len(),
{
    if digits.len() == 0 {
        0
    } else {
        value_of(digits.drop_last(), base) * base + (digits.last() as nat - '0' as nat) as nat
    }
}

/// A number is written in digits that have its value, with no zero before them.
pub proof fn law_number_has_its_value(n: nat, base: nat)
    requires
        2 <= base <= 10,
    ensures
        value_of(number_text(n, base), base) == n,
        number_text(n, base).len() > 0,
        forall|i: int|
            0 <= i < number_text(n, base).len() ==> '0' <= #[trigger] number_text(n, base)[i] <= '9',
        forall|i: int|
            0 <= i < number_text(n, base).len() ==> ('0' as nat) + base > (#[trigger] number_text(
                n,
                base,
            )[i] as nat),
        n > 0 ==> number_text(n, base)[0] != '0',
    decreases n,
{
    let t = number_text(n, base);
    if n < base {
        assert(t.drop_last() =~= Seq::empty());
        assert(value_of(t.drop_last(), base) == 0);
    } else {
        assert(n / base < n && n / base > 0) by (nonlinear_arith)
            requires
                n >= base >= 2,
        ;
        assert(n % base < base && n == (n / base) * base + n % base) by (nonlinear_arith)
            requires
                base >= 2,
        ;
        law_number_has_its_value(n / base, base);
        assert(t.drop_last() =~= number_text(n / base, base));
    }
}

/// Padding puts the fill before a text, up to the width, and cuts nothing off.
pub proof fn law_padding_comes_before(s: Seq<char>, fill: char, width: nat)
    ensures
        s.is_suffix_of(left_padded(s, fill, width)),
        left_padded(s, fill, width).len() == if s.len() >= width {
            s.len()
        } else {
            width
        },
        forall|i: int|
            0 <= i < left_padded(s, fill, width).len() - s.len() ==> #[trigger] left_padded(
                s,
                fill,
                width,
            )[i] == fill,
{
    let t = left_padded(s, fill, width);
    assert(s =~= t.subrange(t.len() - s.len(), t.len() as int));
}

/// Trimming a character off the end takes off its run and nothing else.
pub proof fn law_run_at_the_end_goes(s: Seq<char>, c: char, n: nat)
    requires
        s.len() == 0 || s.last() != c,
    ensures
        trim_end_char(s + Seq::new(n, |i: int| c), c) == s,
    decreases n,
{
    let t = s + Seq::new(n, |i: int| c);
    if n > 0 {
        assert(t.drop_last() =~= s + Seq::new((n - 1) as nat, |i: int| c));
        law_run_at_the_end_goes(s, c, (n - 1) as nat);
    } else {
        assert(t =~= s);
    }
}

proof fn lemma_leading_white_space(lead: Seq<char>, s: Seq<char>)
    requires
        forall|i: int| 0 <= i < lead.len() ==> is_white_space(#[trigger] lead[i]),
        s.len() == 0 || !is_white_space(s[0]),
    ensures
        trim_start_spaces(lead + s) == s,
    decreases lead.len(),
{
    let t = lead + s;
    if lead.len() > 0 {
        assert(t[0] == lead[0]);
        assert(t.drop_first() =~= lead.drop_first() + s);
        lemma_leading_white_space(lead.drop_first(), s);
    } else {
        assert(t =~= s);
    }
}

proof fn lemma_trailing_white_space(s: Seq<char>, trail: Seq<char>)
    requires
        forall|i: int| 0 <= i < trail.len() ==> is_white_space(#[trigger] trail[i]),
        s.len() == 0 || !is_white_space(s.last()),
    ensures
        trim_end_spaces(s + trail) == s,
    decreases trail.len(),
{
    let t = s + trail;
    if trail.len() > 0 {
        assert(t.last() == trail[trail.len() - 1]);
        assert(t.drop_last() =~= s + trail.drop_last());
        lemma_trailing_white_space(s, trail.drop_last());
    } else {
        assert(t =~= s);
    }
}

/// Trimming takes the white space off both ends and nothing else.
pub proof fn law_white_space_around_goes(lead: Seq<char>, s: Seq<char>, trail: Seq<char>)
    requires
        forall|i: int| 0 <= i < lead.len() ==> is_white_space(#[trigger] lead[i]),
        forall|i: int| 0 <= i < trail.len() ==> is_white_space(#[trigger] trail[i]),
        s.len() > 0,
        !is_white_space(s[0]),
        !is_white_space(s.last()),
    ensures
        trimmed(lead + s + trail) == s,
{
    assert(lead + s + trail =~= lead + (s + trail));
    lemma_leading_white_space(lead, s + trail);
    lemma_trailing_white_space(s, trail);
}

/// Bytes that read alike as characters are the same bytes.
pub proof fn law_characters_identify_bytes(a: Seq<u8>, b: Seq<u8>)
    requires
        byte_chars(a) == byte_chars(b),
    ensures
        a == b,
{
    assert(a.len() == byte_chars(a).len() && b.len() == byte_chars(b).len());
    assert forall|i: int| 0 <= i < a.len() implies a[i] == b[i] by {
        assert(byte_chars(a)[i] == a[i] as char);
        assert(byte_chars(b)[i] == b[i] as char);
        assert((a[i] as char) as u32 == a[i] as u32);
        assert((b[i] as char) as u32 == b[i] as u32);
    }
    assert(a =~= b);
}

/// A separator cuts a text in two, and nothing else does: what is before the
/// first one is the first part.
pub proof fn law_first_part_is_before_the_separator(a: Seq<char>, sep: char, b: Seq<char>)
    requires
        !a.contains(sep),
    ensures
        split_on(a, sep) == seq![a],
        split_on(a.push(sep) + b, sep) == seq![a] + split_on(b, sep),
    decreases a.len() + b.len(),
{
    if b.len() > 0 {
        law_first_part_is_before_the_separator(a, sep, b.drop_last());
        let s = a.push(sep) + b;
        assert(s.drop_last() =~= a.push(sep) + b.drop_last());
        assert(s.last() == b.last());
        let before = split_on(b.drop_last(), sep);
        lemma_split_on_nonempty(b.drop_last(), sep);
        assert((seq![a] + before).drop_last() =~= seq![a] + before.drop_last());
        assert((seq![a] + before).last() == before.last());
        assert(split_on(s, sep) =~= seq![a] + split_on(b, sep));
    } else {
        if a.len() > 0 {
            let rest = a.drop_last();
            assert(!rest.contains(sep)) by {
                if rest.contains(sep) {
                    let i = choose|i: int| 0 <= i < rest.len() && rest[i] == sep;
                    assert(a[i] == sep);
                }
            }
            assert(a[a.len() - 1] != sep);
            law_first_part_is_before_the_separator(rest, sep, Seq::empty());
            assert(rest.push(a.last()) =~= a);
            assert(seq![rest].drop_last().push(a) =~= seq![a]);
        } else {
            assert(a =~= Seq::empty());
        }
        let s = a.push(sep) + b;
        assert(s =~= a.push(sep));
        assert(s.drop_last() =~= a);
        assert(split_on(a, sep) == seq![a]);
        assert(s.last() == sep);
        assert(split_on(s.drop_last(), sep) == seq![a]);
        assert(b =~= Seq::empty());
        assert(split_on(b, sep) =~= seq![Seq::<char>::empty()]);
        assert(split_on(s, sep) =~= seq![a] + split_on(b, sep));
    }
}

} // verus!
