//! Archive paths.
//!
//! A path is a text in which `/` separates components. Two paths are the same
//! when they have the same components: repeated separators, a separator at the
//! end and a `.` anywhere but at the start make no difference.

use crate::text::{
    chars_of, join, join_with, same_text, split, split_on, text_of, texts, trim_start_char,
};
use vstd::prelude::*;
use vstd::string::*;

verus! {

/// Whether the path starts at the root.
pub open spec fn is_absolute(p: Seq<char>) -> bool {
    p.len() > 0 && p[0] == '/'
}

/// The pieces that count as components: neither empty ones, nor a `.` that is
/// not the first piece.
pub open spec fn kept(pieces: Seq<Seq<char>>) -> Seq<Seq<char>>
    decreases pieces.len(),
{
    if pieces.len() == 0 {
        Seq::empty()
    } else {
        let before = kept(pieces.drop_last());
        let x = pieces.last();
        if x.len() == 0 || (x == seq!['.'] && pieces.len() > 1) {
            before
        } else {
            before.push(x)
        }
    }
}

/// The components of a path, without the root.
pub open spec fn parts(p: Seq<char>) -> Seq<Seq<char>> {
    kept(split_on(p, '/'))
}

/// Whether a component names something, other than `.` and `..`.
pub open spec fn is_normal(c: Seq<char>) -> bool {
    c != seq!['.'] && c != seq!['.', '.']
}

/// The components that name something.
pub open spec fn normals(c: Seq<Seq<char>>) -> Seq<Seq<char>>
    decreases c.len(),
{
    if c.len() == 0 {
        Seq::empty()
    } else if is_normal(c.last()) {
        normals(c.drop_last()).push(c.last())
    } else {
        normals(c.drop_last())
    }
}

/// The components of a path that name something.
pub open spec fn names(p: Seq<char>) -> Seq<Seq<char>> {
    normals(parts(p))
}

/// Whether two paths have the same components.
pub open spec fn same_path(p: Seq<char>, q: Seq<char>) -> bool {
    is_absolute(p) == is_absolute(q) && parts(p) == parts(q)
}

/// The one spelling that all paths with the same components share.
pub open spec fn path_key(p: Seq<char>) -> Seq<char> {
    (if is_absolute(p) {
        seq!['/']
    } else {
        Seq::empty()
    }) + join_with(parts(p), '/')
}

// ── Executable components ───────────────────────────────────────────────────

/// The components of a path, without the root.
pub fn path_parts(p: &str) -> (r: Vec<String>)
    ensures
        texts(r@) == parts(p@),
{
    let pieces = split(p, '/');
    let mut r: Vec<String> = Vec::new();
    proof {
        reveal_strlit(".");
        assert("."@ =~= seq!['.']);
        assert(texts(pieces@).take(0) =~= Seq::empty());
    }
    for i in 0..pieces.len()
        invariant
            "."@ == seq!['.'],
            texts(pieces@) == split_on(p@, '/'),
            texts(r@) == kept(texts(pieces@).take(i as int)),
    {
        let ghost before = texts(r@);
        proof {
            assert(texts(pieces@).take(i + 1).drop_last() =~= texts(pieces@).take(i as int));
        }
        let piece = pieces[i].as_str();
        if piece.is_empty() {
            assert(piece@.len() == 0) by {
                vstd::utf8::encode_utf8_decode_utf8(piece@);
                vstd::utf8::encode_utf8_decode_utf8(Seq::<char>::empty());
                assert(vstd::utf8::encode_utf8(piece@) =~= vstd::utf8::encode_utf8(
                    Seq::<char>::empty(),
                ));
            }
        } else if i > 0 && same_text(piece, ".") {
        } else {
            assert(piece@.len() > 0) by {
                if piece@.len() == 0 {
                    assert(piece@ =~= Seq::empty());
                }
            }
            r.push(piece.to_owned());
            assert(texts(r@) =~= before.push(piece@));
        }
    }
    assert(texts(pieces@).take(pieces.len() as int) =~= texts(pieces@));
    r
}

/// Whether the path starts at the root.
pub fn starts_at_root(p: &str) -> (r: bool)
    ensures
        r == is_absolute(p@),
{
    let v = chars_of(p);
    v.len() > 0 && v[0] == '/'
}

/// The key of a path.
pub fn key_of(p: &str) -> (r: String)
    ensures
        r@ == path_key(p@),
{
    let comps = path_parts(p);
    let joined = join(&comps, '/');
    if starts_at_root(p) {
        let mut r = String::new();
        r.push('/');
        r.append(joined.as_str());
        assert(r@ =~= path_key(p@));
        r
    } else {
        assert(joined@ =~= path_key(p@));
        joined
    }
}

/// Whether a component names something.
pub fn names_something(c: &str) -> (r: bool)
    ensures
        r == is_normal(c@),
{
    proof {
        reveal_strlit(".");
        reveal_strlit("..");
        assert("."@ =~= seq!['.']);
        assert(".."@ =~= seq!['.', '.']);
    }
    !same_text(c, ".") && !same_text(c, "..")
}

/// The components of `path` that name something.
pub fn normal_components(path: &str) -> (r: Vec<String>)
    ensures
        texts(r@) == names(path@),
{
    let comps = path_parts(path);
    let mut r: Vec<String> = Vec::new();
    assert(texts(comps@).take(0) =~= Seq::empty());
    for i in 0..comps.len()
        invariant
            texts(comps@) == parts(path@),
            texts(r@) == normals(texts(comps@).take(i as int)),
    {
        let ghost before = texts(r@);
        proof {
            assert(texts(comps@).take(i + 1).drop_last() =~= texts(comps@).take(i as int));
        }
        if names_something(comps[i].as_str()) {
            r.push(comps[i].clone());
            assert(texts(r@) =~= before.push(comps@[i as int]@));
        }
    }
    assert(texts(comps@).take(comps.len() as int) =~= texts(comps@));
    r
}

// ── Normalising ─────────────────────────────────────────────────────────────

/// `s` without the run of `./` at its start.
pub open spec fn strip_dot_slashes(s: Seq<char>) -> Seq<char>
    decreases s.len(),
{
    if s.len() >= 2 && s[0] == '.' && s[1] == '/' {
        strip_dot_slashes(s.skip(2))
    } else {
        s
    }
}

/// `s` without the `./` prefixes and then the `/` prefixes.
pub open spec fn normalized(s: Seq<char>) -> Seq<char> {
    trim_start_char(strip_dot_slashes(s), '/')
}

/// Normalise a tar entry path by stripping any leading `./` or `/` prefix.
///
/// Layer archives commonly use paths such as `./usr/bin/cat`. The plain
/// relative path gives the trackers and the output one spelling.
pub fn normalize_path(p: &str) -> (r: String)
    ensures
        r@ == normalized(p@),
{
    let v = chars_of(p);
    let mut a: usize = 0;
    assert(v@.skip(0) =~= p@);
    while v.len() - a >= 2 && v[a] == '.' && v[a + 1] == '/'
        invariant
            a <= v.len(),
            strip_dot_slashes(v@.skip(a as int)) == strip_dot_slashes(p@),
        decreases v.len() - a,
    {
        assert(v@.skip(a as int).skip(2) =~= v@.skip(a + 2));
        a = a + 2;
    }
    let ghost t = v@.skip(a as int);
    assert(t.len() >= 2 ==> t[0] == v@[a as int] && t[1] == v@[a + 1]);
    assert(strip_dot_slashes(t) == t);
    assert(normalized(p@) == trim_start_char(t, '/'));
    while a < v.len() && v[a] == '/'
        invariant
            a <= v.len(),
            trim_start_char(v@.skip(a as int), '/') == trim_start_char(t, '/'),
        decreases v.len() - a,
    {
        let ghost rest = v@.skip(a as int);
        assert(rest[0] == v@[a as int]);
        assert(rest.drop_first() =~= v@.skip(a + 1));
        a = a + 1;
    }
    let ghost rest = v@.skip(a as int);
    assert(rest.len() > 0 ==> rest[0] == v@[a as int]);
    assert(trim_start_char(rest, '/') == rest);
    assert(rest =~= v@.subrange(a as int, v.len() as int));
    text_of(&v, a, v.len())
}

// ── Order ───────────────────────────────────────────────────────────────────

/// Whether `a` comes before `b` by code points.
pub open spec fn text_less(a: Seq<char>, b: Seq<char>) -> bool
    decreases a.len(),
{
    if b.len() == 0 {
        false
    } else if a.len() == 0 {
        true
    } else if a[0] != b[0] {
        a[0] < b[0]
    } else {
        text_less(a.drop_first(), b.drop_first())
    }
}

/// The rank of a component: `.` before `..` before names.
pub open spec fn component_rank(c: Seq<char>) -> int {
    if c == seq!['.'] {
        0
    } else if c == seq!['.', '.'] {
        1
    } else {
        2
    }
}

/// Whether component `a` comes before component `b`.
pub open spec fn component_less(a: Seq<char>, b: Seq<char>) -> bool {
    ||| component_rank(a) < component_rank(b)
    ||| component_rank(a) == component_rank(b) && text_less(a, b)
}

/// Whether the components `a` come before the components `b`.
pub open spec fn parts_less(a: Seq<Seq<char>>, b: Seq<Seq<char>>) -> bool
    decreases a.len(),
{
    if b.len() == 0 {
        false
    } else if a.len() == 0 {
        true
    } else if a[0] != b[0] {
        component_less(a[0], b[0])
    } else {
        parts_less(a.drop_first(), b.drop_first())
    }
}

/// Whether path `p` comes before path `q`: by components, of which the root is
/// the least.
pub open spec fn path_less(p: Seq<char>, q: Seq<char>) -> bool {
    if is_absolute(p) == is_absolute(q) {
        parts_less(parts(p), parts(q))
    } else if is_absolute(p) {
        parts(q).len() > 0
    } else {
        parts(p).len() == 0
    }
}

/// Whether `a` comes before `b` by code points.
pub fn is_text_less(a: &str, b: &str) -> (r: bool)
    ensures
        r == text_less(a@, b@),
{
    let x = chars_of(a);
    let y = chars_of(b);
    let mut i: usize = 0;
    assert(x@.skip(0) =~= a@ && y@.skip(0) =~= b@);
    while i < x.len() && i < y.len() && x[i] == y[i]
        invariant
            i <= x.len(),
            i <= y.len(),
            text_less(x@.skip(i as int), y@.skip(i as int)) == text_less(a@, b@),
        decreases x.len() - i,
    {
        assert(x@.skip(i as int).drop_first() =~= x@.skip(i + 1));
        assert(y@.skip(i as int).drop_first() =~= y@.skip(i + 1));
        i = i + 1;
    }
    if i >= y.len() {
        false
    } else if i >= x.len() {
        true
    } else {
        x[i] < y[i]
    }
}

fn rank_of(c: &str) -> (r: u8)
    ensures
        r == component_rank(c@),
{
    proof {
        reveal_strlit(".");
        reveal_strlit("..");
        assert("."@ =~= seq!['.']);
        assert(".."@ =~= seq!['.', '.']);
    }
    if same_text(c, ".") {
        0
    } else if same_text(c, "..") {
        1
    } else {
        2
    }
}

/// Whether path `p` comes before path `q`.
pub fn is_path_less(p: &str, q: &str) -> (r: bool)
    ensures
        r == path_less(p@, q@),
{
    let x = path_parts(p);
    let y = path_parts(q);
    let ap = starts_at_root(p);
    let aq = starts_at_root(q);
    if ap != aq {
        assert(texts(x@).len() == x.len() && texts(y@).len() == y.len());
        return if ap {
            y.len() > 0
        } else {
            x.len() == 0
        };
    }
    let mut i: usize = 0;
    assert(texts(x@).skip(0) =~= parts(p@) && texts(y@).skip(0) =~= parts(q@));
    while i < x.len() && i < y.len() && same_text(x[i].as_str(), y[i].as_str())
        invariant
            i <= x.len(),
            i <= y.len(),
            parts_less(texts(x@).skip(i as int), texts(y@).skip(i as int)) == parts_less(
                parts(p@),
                parts(q@),
            ),
        decreases x.len() - i,
    {
        assert(texts(x@).skip(i as int).drop_first() =~= texts(x@).skip(i + 1));
        assert(texts(y@).skip(i as int).drop_first() =~= texts(y@).skip(i + 1));
        i = i + 1;
    }
    if i >= y.len() {
        false
    } else if i >= x.len() {
        true
    } else {
        let s = x[i].as_str();
        let t = y[i].as_str();
        let rs: u8 = rank_of(s);
        let rt: u8 = rank_of(t);
        rs < rt || (rs == rt && is_text_less(s, t))
    }
}

// ── Facts about keys and order ──────────────────────────────────────────────

proof fn lemma_split_after_separator(x: Seq<char>, y: Seq<char>, sep: char)
    requires
        !y.contains(sep),
    ensures
        split_on(x.push(sep) + y, sep) == split_on(x, sep).push(y),
    decreases y.len(),
{
    let s = x.push(sep) + y;
    if y.len() == 0 {
        assert(s =~= x.push(sep));
        assert(s.drop_last() =~= x);
        assert(y =~= Seq::empty());
    } else {
        let z = y.drop_last();
        assert(!z.contains(sep)) by {
            if z.contains(sep) {
                let i = choose|i: int| 0 <= i < z.len() && z[i] == sep;
                assert(y[i] == sep);
            }
        }
        lemma_split_after_separator(x, z, sep);
        assert(s.drop_last() =~= x.push(sep) + z);
        assert(s.last() == y.last());
        assert(y[y.len() - 1] != sep);
        let before = split_on(x, sep).push(z);
        assert(before.drop_last() =~= split_on(x, sep));
        assert(z.push(y.last()) =~= y);
    }
}

proof fn lemma_split_without_separator(y: Seq<char>, sep: char)
    requires
        !y.contains(sep),
    ensures
        split_on(y, sep) == seq![y],
    decreases y.len(),
{
    if y.len() == 0 {
        assert(y =~= Seq::empty());
    } else {
        let z = y.drop_last();
        assert(!z.contains(sep)) by {
            if z.contains(sep) {
                let i = choose|i: int| 0 <= i < z.len() && z[i] == sep;
                assert(y[i] == sep);
            }
        }
        lemma_split_without_separator(z, sep);
        assert(y[y.len() - 1] != sep);
        assert(z.push(y.last()) =~= y);
        assert(seq![z].drop_last().push(y) =~= seq![y]);
    }
}

/// Splitting undoes joining, when no part holds the separator.
pub proof fn lemma_split_join(c: Seq<Seq<char>>, sep: char)
    requires
        c.len() > 0,
        forall|i: int| 0 <= i < c.len() ==> !(#[trigger] c[i]).contains(sep),
    ensures
        split_on(join_with(c, sep), sep) == c,
    decreases c.len(),
{
    if c.len() == 1 {
        lemma_split_without_separator(c[0], sep);
        assert(seq![c[0]] =~= c);
    } else {
        lemma_split_join(c.drop_last(), sep);
        assert(!c[c.len() - 1].contains(sep));
        lemma_split_after_separator(join_with(c.drop_last(), sep), c.last(), sep);
        assert(c.drop_last().push(c.last()) =~= c);
    }
}

proof fn lemma_split_parts_free(s: Seq<char>, sep: char)
    ensures
        split_on(s, sep).len() >= 1,
        forall|i: int|
            0 <= i < split_on(s, sep).len() ==> !(#[trigger] split_on(s, sep)[i]).contains(sep),
    decreases s.len(),
{
    if s.len() > 0 {
        lemma_split_parts_free(s.drop_last(), sep);
        let before = split_on(s.drop_last(), sep);
        if s.last() != sep {
            let w = before.last().push(s.last());
            assert(!before[before.len() - 1].contains(sep));
            assert(!w.contains(sep)) by {
                if w.contains(sep) {
                    let i = choose|i: int| 0 <= i < w.len() && w[i] == sep;
                    assert(before.last()[i] == sep);
                }
            }
        }
    }
}

proof fn lemma_joined_start(p: Seq<char>)
    ensures
        parts(p).len() == 0 ==> join_with(parts(p), '/').len() == 0,
        parts(p).len() > 0 ==> join_with(parts(p), '/').len() > 0 && join_with(
            parts(p),
            '/',
        )[0] != '/',
{
    lemma_parts_valid(p);
    lemma_join_start(parts(p));
}

proof fn lemma_join_start(c: Seq<Seq<char>>)
    requires
        forall|i: int| 0 <= i < c.len() ==> (#[trigger] c[i]).len() > 0 && !c[i].contains('/'),
    ensures
        c.len() > 0 ==> join_with(c, '/').len() > 0 && join_with(c, '/')[0] != '/',
    decreases c.len(),
{
    if c.len() == 1 {
        assert(c[0][0] != '/');
    } else if c.len() > 1 {
        lemma_join_start(c.drop_last());
    }
}

/// Two paths share their key exactly when they are the same path.
pub proof fn law_key_identifies_path(p: Seq<char>, q: Seq<char>)
    ensures
        path_key(p) == path_key(q) <==> same_path(p, q),
{
    lemma_parts_valid(p);
    lemma_parts_valid(q);
    lemma_joined_start(p);
    lemma_joined_start(q);
    let jp = join_with(parts(p), '/');
    let jq = join_with(parts(q), '/');
    if path_key(p) == path_key(q) {
        if is_absolute(p) {
            assert(path_key(p)[0] == '/');
            assert(path_key(p).skip(1) =~= jp);
        } else {
            assert(path_key(p) =~= jp);
        }
        if is_absolute(q) {
            assert(path_key(q)[0] == '/');
            assert(path_key(q).skip(1) =~= jq);
        } else {
            assert(path_key(q) =~= jq);
        }
        assert(jp == jq);
        if parts(p).len() == 0 {
            assert(parts(q).len() == 0);
            assert(parts(p) =~= parts(q));
        } else {
            lemma_split_join(parts(p), '/');
            lemma_split_join(parts(q), '/');
        }
    }
}

proof fn lemma_trim_start(s: Seq<char>, c: char)
    ensures
        trim_start_char(s, c).len() > 0 ==> trim_start_char(s, c)[0] != c,
        trim_start_char(trim_start_char(s, c), c) == trim_start_char(s, c),
    decreases s.len(),
{
    if s.len() > 0 && s[0] == c {
        lemma_trim_start(s.drop_first(), c);
    }
}

/// A normalised path is never absolute.
pub proof fn law_normalized_is_relative(p: Seq<char>)
    ensures
        !is_absolute(normalized(p)),
{
    lemma_trim_start(strip_dot_slashes(p), '/');
}

/// The pieces that name something.
spec fn named(pieces: Seq<Seq<char>>) -> Seq<Seq<char>>
    decreases pieces.len(),
{
    if pieces.len() == 0 {
        Seq::empty()
    } else if pieces.last().len() > 0 && is_normal(pieces.last()) {
        named(pieces.drop_last()).push(pieces.last())
    } else {
        named(pieces.drop_last())
    }
}

proof fn lemma_named(pieces: Seq<Seq<char>>)
    ensures
        normals(kept(pieces)) == named(pieces),
    decreases pieces.len(),
{
    if pieces.len() > 0 {
        lemma_named(pieces.drop_last());
        let before = kept(pieces.drop_last());
        assert(before.push(pieces.last()).drop_last() =~= before);
    }
}

proof fn lemma_named_add(a: Seq<Seq<char>>, b: Seq<Seq<char>>)
    ensures
        named(a + b) == named(a) + named(b),
    decreases b.len(),
{
    if b.len() == 0 {
        assert(a + b =~= a);
        assert(named(a) + named(b) =~= named(a));
    } else {
        lemma_named_add(a, b.drop_last());
        assert((a + b).drop_last() =~= a + b.drop_last());
        assert(named(a) + named(b.drop_last()).push(b.last()) =~= (named(a) + named(
            b.drop_last(),
        )).push(b.last()));
    }
}

proof fn lemma_split_in_two(x: Seq<char>, y: Seq<char>, sep: char)
    ensures
        split_on(x.push(sep) + y, sep) == split_on(x, sep) + split_on(y, sep),
    decreases y.len(),
{
    let s = x.push(sep) + y;
    if y.len() == 0 {
        assert(s =~= x.push(sep));
        assert(s.drop_last() =~= x);
        assert(split_on(y, sep) =~= seq![Seq::<char>::empty()]);
    } else {
        lemma_split_in_two(x, y.drop_last(), sep);
        lemma_split_parts_free(y.drop_last(), sep);
        let (a, b) = (split_on(x, sep), split_on(y.drop_last(), sep));
        assert(s.drop_last() =~= x.push(sep) + y.drop_last());
        assert(s.last() == y.last());
        assert((a + b).last() == b.last());
        assert((a + b).drop_last() =~= a + b.drop_last());
    }
}

/// A leading piece that names nothing can be left out.
proof fn lemma_names_after_prefix(x: Seq<char>, y: Seq<char>)
    requires
        !x.contains('/'),
        x.len() == 0 || !is_normal(x),
    ensures
        names(x.push('/') + y) == names(y),
{
    lemma_split_in_two(x, y, '/');
    lemma_split_without_separator(x, '/');
    lemma_named(split_on(y, '/'));
    lemma_named(split_on(x.push('/') + y, '/'));
    lemma_named_add(seq![x], split_on(y, '/'));
    assert(seq![x].drop_last() =~= Seq::empty());
    assert(named(seq![x].drop_last()) =~= Seq::empty());
    assert(seq![x].last() == x);
    assert(named(seq![x]) =~= Seq::empty());
    assert(Seq::empty() + named(split_on(y, '/')) =~= named(split_on(y, '/')));
}

proof fn lemma_trimming_keeps_names(p: Seq<char>)
    ensures
        names(trim_start_char(p, '/')) == names(p),
    decreases p.len(),
{
    if p.len() > 0 && p[0] == '/' {
        lemma_trimming_keeps_names(p.drop_first());
        lemma_names_after_prefix(Seq::empty(), p.drop_first());
        assert(Seq::empty().push('/') + p.drop_first() =~= p);
    }
}

proof fn lemma_stripping_keeps_names(p: Seq<char>)
    ensures
        names(strip_dot_slashes(p)) == names(p),
    decreases p.len(),
{
    if p.len() >= 2 && p[0] == '.' && p[1] == '/' {
        lemma_stripping_keeps_names(p.skip(2));
        lemma_names_after_prefix(seq!['.'], p.skip(2));
        assert(seq!['.'].push('/') + p.skip(2) =~= p);
    }
}

/// Normalising a path keeps its names.
pub proof fn law_normalizing_keeps_names(p: Seq<char>)
    ensures
        names(normalized(p)) == names(p),
{
    lemma_stripping_keeps_names(p);
    lemma_trimming_keeps_names(strip_dot_slashes(p));
}

proof fn lemma_text_less_total(a: Seq<char>, b: Seq<char>)
    ensures
        a == b || text_less(a, b) || text_less(b, a),
        !(text_less(a, b) && text_less(b, a)),
        a == b ==> !text_less(a, b),
    decreases a.len(),
{
    if a.len() > 0 && b.len() > 0 {
        if a[0] == b[0] {
            lemma_text_less_total(a.drop_first(), b.drop_first());
            assert(seq![a[0]] + a.drop_first() =~= a);
            assert(seq![b[0]] + b.drop_first() =~= b);
        }
    } else if a.len() == 0 && b.len() == 0 {
        assert(a =~= b);
    }
}

proof fn lemma_text_less_trans(a: Seq<char>, b: Seq<char>, c: Seq<char>)
    requires
        text_less(a, b),
        text_less(b, c),
    ensures
        text_less(a, c),
    decreases a.len(),
{
    if a.len() > 0 && b.len() > 0 && c.len() > 0 && a[0] == b[0] && b[0] == c[0] {
        lemma_text_less_trans(a.drop_first(), b.drop_first(), c.drop_first());
    }
}

proof fn lemma_parts_less_total(a: Seq<Seq<char>>, b: Seq<Seq<char>>)
    ensures
        a == b || parts_less(a, b) || parts_less(b, a),
        !(parts_less(a, b) && parts_less(b, a)),
    decreases a.len(),
{
    if a.len() > 0 && b.len() > 0 {
        lemma_text_less_total(a[0], b[0]);
        if a[0] == b[0] {
            lemma_parts_less_total(a.drop_first(), b.drop_first());
            assert(seq![a[0]] + a.drop_first() =~= a);
            assert(seq![b[0]] + b.drop_first() =~= b);
        }
    } else if a.len() == 0 && b.len() == 0 {
        assert(a =~= b);
    }
}

proof fn lemma_parts_less_trans(a: Seq<Seq<char>>, b: Seq<Seq<char>>, c: Seq<Seq<char>>)
    requires
        parts_less(a, b),
        parts_less(b, c),
    ensures
        parts_less(a, c),
    decreases a.len(),
{
    if a.len() > 0 && b.len() > 0 && c.len() > 0 {
        if a[0] == b[0] && b[0] == c[0] {
            lemma_parts_less_trans(a.drop_first(), b.drop_first(), c.drop_first());
        } else if a[0] != b[0] && b[0] != c[0] {
            lemma_text_less_total(a[0], b[0]);
            lemma_text_less_total(b[0], c[0]);
            lemma_text_less_total(a[0], c[0]);
            if component_rank(a[0]) == component_rank(b[0]) && component_rank(b[0])
                == component_rank(c[0]) {
                lemma_text_less_trans(a[0], b[0], c[0]);
            }
        }
    }
}

/// Of two paths that differ, exactly one comes before the other.
pub proof fn law_path_order_total(p: Seq<char>, q: Seq<char>)
    ensures
        same_path(p, q) || path_less(p, q) || path_less(q, p),
        !(path_less(p, q) && path_less(q, p)),
{
    lemma_parts_less_total(parts(p), parts(q));
}

/// The order of paths is transitive.
pub proof fn law_path_order_transitive(p: Seq<char>, q: Seq<char>, r: Seq<char>)
    requires
        path_less(p, q),
        path_less(q, r),
    ensures
        path_less(p, r),
{
    if is_absolute(p) == is_absolute(q) && is_absolute(q) == is_absolute(r) {
        lemma_parts_less_trans(parts(p), parts(q), parts(r));
    }
}

// ── Paths from components ───────────────────────────────────────────────────

/// Whether `c` could be the components of a relative path.
pub open spec fn valid_parts(c: Seq<Seq<char>>) -> bool {
    forall|i: int|
        0 <= i < c.len() ==> (#[trigger] c[i]).len() > 0 && !c[i].contains('/') && (i > 0 ==> c[i]
            != seq!['.'])
}

proof fn lemma_kept_valid(pieces: Seq<Seq<char>>)
    requires
        forall|i: int| 0 <= i < pieces.len() ==> !(#[trigger] pieces[i]).contains('/'),
    ensures
        valid_parts(kept(pieces)),
        kept(pieces).len() <= pieces.len(),
    decreases pieces.len(),
{
    if pieces.len() > 0 {
        lemma_kept_valid(pieces.drop_last());
        let before = kept(pieces.drop_last());
        assert(!pieces[pieces.len() - 1].contains('/'));
        assert forall|i: int| 0 <= i < kept(pieces).len() implies (#[trigger] kept(
            pieces,
        )[i]).len() > 0 && !kept(pieces)[i].contains('/') && (i > 0 ==> kept(pieces)[i]
            != seq!['.']) by {
            if i < before.len() {
                assert(kept(pieces)[i] == before[i]);
            }
        }
    }
}

proof fn lemma_kept_of_valid(c: Seq<Seq<char>>)
    requires
        valid_parts(c),
    ensures
        kept(c) == c,
    decreases c.len(),
{
    if c.len() > 0 {
        lemma_kept_of_valid(c.drop_last());
        assert(c[c.len() - 1].len() > 0);
        assert(c.drop_last().push(c.last()) =~= c);
    } else {
        assert(kept(c) =~= c);
    }
}

/// The components of a path are valid components.
pub proof fn lemma_parts_valid(p: Seq<char>)
    ensures
        valid_parts(parts(p)),
{
    lemma_split_parts_free(p, '/');
    lemma_kept_valid(split_on(p, '/'));
}

/// Joining valid components gives a path that has them.
pub proof fn law_parts_of_joined(c: Seq<Seq<char>>)
    requires
        valid_parts(c),
    ensures
        parts(join_with(c, '/')) == c,
{
    if c.len() == 0 {
        assert(join_with(c, '/') =~= Seq::empty());
        assert(kept(seq![Seq::<char>::empty()].drop_last()) =~= Seq::empty());
        assert(parts(join_with(c, '/')) =~= c);
    } else {
        lemma_split_join(c, '/');
        lemma_kept_of_valid(c);
    }
}

/// The names of `name` below the directory with components `c`, where `name`
/// is one component or empty.
pub proof fn lemma_names_of_child(c: Seq<Seq<char>>, name: Seq<char>)
    requires
        valid_parts(c),
        !name.contains('/'),
    ensures
        names(
            if c.len() == 0 {
                name
            } else {
                join_with(c, '/').push('/') + name
            },
        ) == if name.len() > 0 && is_normal(name) {
            normals(c).push(name)
        } else {
            normals(c)
        },
{
    if c.len() == 0 {
        lemma_split_without_separator(name, '/');
        let one = seq![name];
        assert(one.drop_last() =~= Seq::empty());
        assert(kept(one.drop_last()) =~= Seq::empty());
        if name.len() > 0 {
            assert(kept(one) =~= one);
            assert(normals(one.drop_last()) =~= Seq::empty());
            assert(normals(c) =~= Seq::empty());
        } else {
            assert(kept(one) =~= Seq::empty());
            assert(kept(one) =~= c);
        }
    } else {
        lemma_split_join(c, '/');
        lemma_split_after_separator(join_with(c, '/'), name, '/');
        let all = c.push(name);
        assert(all.drop_last() =~= c);
        lemma_kept_of_valid(c);
        if name.len() > 0 && name != seq!['.'] {
            assert(kept(all) =~= all);
        } else {
            assert(kept(all) =~= c);
        }
    }
}

/// The path of `name` below the directory with components `dir`.
pub fn child_path(dir: &Vec<String>, name: &str) -> (r: String)
    requires
        valid_parts(texts(dir@)),
        !name@.contains('/'),
    ensures
        names(r@) == if name@.len() > 0 && is_normal(name@) {
            normals(texts(dir@)).push(name@)
        } else {
            normals(texts(dir@))
        },
{
    proof {
        lemma_names_of_child(texts(dir@), name@);
    }
    let mut r = join(dir, '/');
    if dir.len() > 0 {
        r.push('/');
    }
    r.append(name);
    proof {
        if dir.len() == 0 {
            assert(texts(dir@).len() == 0);
            assert(r@ =~= name@);
        } else {
            assert(texts(dir@).len() > 0);
        }
    }
    r
}

// ── Joining ─────────────────────────────────────────────────────────────────

/// The path of `name` below `base`; an absolute name stands for itself.
pub open spec fn joined(base: Seq<char>, name: Seq<char>) -> Seq<char> {
    if name.len() > 0 && name[0] == '/' {
        name
    } else if base.len() == 0 || base.last() == '/' {
        base + name
    } else {
        base.push('/') + name
    }
}

/// The path of `name` below `base`; an absolute name stands for itself.
pub fn join_path(base: &str, name: &str) -> (r: String)
    ensures
        r@ == joined(base@, name@),
{
    let n = chars_of(name);
    if n.len() > 0 && n[0] == '/' {
        return name.to_owned();
    }
    let b = chars_of(base);
    let mut r = base.to_owned();
    if b.len() > 0 && b[b.len() - 1] != '/' {
        r.push('/');
    }
    r.append(name);
    r
}

// ── Laws on text ────────────────────────────────────────────────────────────

/// Whether a text is one component: a name, `..`, or `.`, without separator.
pub open spec fn is_component(c: Seq<char>) -> bool {
    c.len() > 0 && !c.contains('/')
}

/// What is behind a separator is the last component, and what is before it has
/// the others. A lone text without separator is one component.
pub proof fn law_last_component_is_behind_the_separator(dir: Seq<char>, name: Seq<char>)
    requires
        is_component(name),
    ensures
        parts(name) == seq![name],
        name != seq!['.'] ==> parts(dir.push('/') + name) == parts(dir).push(name),
        name == seq!['.'] ==> parts(dir.push('/') + name) == parts(dir),
        parts(dir.push('/')) == parts(dir),
        name != seq!['.'] && name != seq!['.', '.'] ==> names(dir.push('/') + name) == names(
            dir,
        ).push(name) && names(name) == seq![name],
        name == seq!['.', '.'] ==> names(dir.push('/') + name) == names(dir),
{
    let all = split_on(dir, '/').push(name);
    lemma_split_after_separator(dir, name, '/');
    lemma_split_parts_free(dir, '/');
    assert(all.drop_last() =~= split_on(dir, '/'));
    lemma_split_without_separator(name, '/');
    let one = seq![name];
    assert(one.drop_last() =~= Seq::empty());
    assert(kept(one.drop_last()) =~= Seq::empty());
    assert(kept(one) =~= one);
    assert(normals(one.drop_last()) =~= Seq::empty());
    let none = Seq::<char>::empty();
    lemma_split_after_separator(dir, none, '/');
    assert(dir.push('/') + none =~= dir.push('/'));
    assert(split_on(dir, '/').push(none).drop_last() =~= split_on(dir, '/'));
    assert(parts(dir).push(name).drop_last() =~= parts(dir));
    if name != seq!['.'] && name != seq!['.', '.'] {
        assert(normals(one) =~= seq![name]);
    }
}

/// `n` times the same text.
pub open spec fn repeated(text: Seq<char>, n: nat) -> Seq<char>
    decreases n,
{
    if n == 0 {
        Seq::empty()
    } else {
        text + repeated(text, (n - 1) as nat)
    }
}

/// Normalising takes off the `./` and then the `/` at the start of a path, as
/// many as there are, and nothing else.
pub proof fn law_normalizing_takes_off_the_start(p: Seq<char>, dots: nat, slashes: nat)
    requires
        p.len() == 0 || p[0] != '/',
        slashes == 0 ==> !(p.len() >= 2 && p[0] == '.' && p[1] == '/'),
    ensures
        normalized(repeated(seq!['.', '/'], dots) + (repeated(seq!['/'], slashes) + p)) == p,
    decreases dots,
{
    let rest = repeated(seq!['/'], slashes) + p;
    let s = repeated(seq!['.', '/'], dots) + rest;
    if dots > 0 {
        let before = repeated(seq!['.', '/'], (dots - 1) as nat);
        assert(s =~= seq!['.', '/'] + (before + rest));
        assert(s.skip(2) =~= before + rest);
        law_normalizing_takes_off_the_start(p, (dots - 1) as nat, slashes);
    } else {
        assert(s =~= rest);
        if slashes > 0 {
            assert(rest[0] == '/');
        } else {
            assert(rest =~= p);
        }
        lemma_slashes_go(p, slashes);
    }
}

proof fn lemma_slashes_go(p: Seq<char>, n: nat)
    requires
        p.len() == 0 || p[0] != '/',
    ensures
        trim_start_char(repeated(seq!['/'], n) + p, '/') == p,
    decreases n,
{
    let s = repeated(seq!['/'], n) + p;
    if n > 0 {
        assert(s.drop_first() =~= repeated(seq!['/'], (n - 1) as nat) + p);
        lemma_slashes_go(p, (n - 1) as nat);
    } else {
        assert(s =~= p);
    }
}

/// Texts compare by the first character in which they differ; one that goes on
/// comes later.
pub proof fn law_texts_compare_by_the_first_difference(
    common: Seq<char>,
    x: char,
    a: Seq<char>,
    y: char,
    b: Seq<char>,
)
    requires
        x != y,
    ensures
        text_less(common.push(x) + a, common.push(y) + b) <==> x < y,
        text_less(common, common.push(x) + a),
        !text_less(common.push(x) + a, common),
    decreases common.len(),
{
    let (s, t) = (common.push(x) + a, common.push(y) + b);
    if common.len() > 0 {
        let rest = common.drop_first();
        assert(s.drop_first() =~= rest.push(x) + a);
        assert(t.drop_first() =~= rest.push(y) + b);
        assert(s[0] == common[0] && t[0] == common[0]);
        law_texts_compare_by_the_first_difference(rest, x, a, y, b);
    } else {
        assert(s[0] == x && t[0] == y);
    }
}

proof fn lemma_parts_compare(
    common: Seq<Seq<char>>,
    x: Seq<char>,
    a: Seq<Seq<char>>,
    y: Seq<char>,
    b: Seq<Seq<char>>,
)
    requires
        x != y,
    ensures
        parts_less(common.push(x) + a, common.push(y) + b) == component_less(x, y),
        parts_less(common, common.push(x) + a),
    decreases common.len(),
{
    let (s, t) = (common.push(x) + a, common.push(y) + b);
    if common.len() > 0 {
        let rest = common.drop_first();
        assert(s.drop_first() =~= rest.push(x) + a);
        assert(t.drop_first() =~= rest.push(y) + b);
        assert(s[0] == common[0] && t[0] == common[0]);
        lemma_parts_compare(rest, x, a, y, b);
    } else {
        assert(s[0] == x && t[0] == y);
    }
}

/// Relative paths compare by the first component in which they differ: names by
/// their texts, `..` before names, and a directory before what is in it.
pub proof fn law_paths_compare_by_the_first_difference(
    p: Seq<char>,
    q: Seq<char>,
    common: Seq<Seq<char>>,
    x: Seq<char>,
    a: Seq<Seq<char>>,
    y: Seq<char>,
    b: Seq<Seq<char>>,
)
    requires
        !is_absolute(p) && !is_absolute(q),
        parts(p) == common.push(x) + a,
        x != y,
        x != seq!['.'] && y != seq!['.'],
    ensures
        parts(q) == common ==> path_less(q, p) && !path_less(p, q),
        parts(q) == common.push(y) + b && x != seq!['.', '.'] && y != seq!['.', '.'] ==> (path_less(
            p,
            q,
        ) <==> text_less(x, y)),
        parts(q) == common.push(y) + b && x == seq!['.', '.'] ==> path_less(p, q),
{
    lemma_parts_compare(common, x, a, y, b);
    if parts(q) == common {
        law_path_order_total(p, q);
    }
}

/// The names of a joined path are those of both, one after the other.
pub proof fn law_joined_path_has_both_names(base: Seq<char>, name: Seq<char>)
    requires
        !is_absolute(name),
    ensures
        names(joined(base, name)) == names(base) + names(name),
{
    lemma_named(split_on(base, '/'));
    lemma_named(split_on(name, '/'));
    let none = Seq::<char>::empty();
    if base.len() == 0 {
        assert(base =~= none);
        assert(base + name =~= name);
        lemma_split_without_separator(none, '/');
        assert(named(seq![none].drop_last()) =~= Seq::empty());
        assert(named(seq![none]) =~= Seq::empty());
        assert(names(base) + names(name) =~= names(name));
    } else if base.last() == '/' {
        let b = base.drop_last();
        assert(base + name =~= b.push('/') + name);
        lemma_split_in_two(b, name, '/');
        lemma_named(split_on(b.push('/') + name, '/'));
        lemma_named_add(split_on(b, '/'), split_on(name, '/'));
        lemma_split_in_two(b, none, '/');
        assert(b.push('/') + none =~= base);
        lemma_split_without_separator(none, '/');
        lemma_named_add(split_on(b, '/'), seq![none]);
        assert(named(seq![none].drop_last()) =~= Seq::empty());
        assert(named(seq![none]) =~= Seq::empty());
        assert(named(split_on(b, '/')) + Seq::empty() =~= named(split_on(b, '/')));
    } else {
        lemma_split_in_two(base, name, '/');
        lemma_named(split_on(base.push('/') + name, '/'));
        lemma_named_add(split_on(base, '/'), split_on(name, '/'));
    }
}

/// Two paths are the same exactly when the last components are, and the paths
/// before them. Separators at the end and before the last component make no
/// difference, and `.` behind a separator makes none.
pub proof fn law_same_paths_have_the_same_components(
    a: Seq<char>,
    x: Seq<char>,
    b: Seq<char>,
    y: Seq<char>,
)
    requires
        is_component(x),
        is_component(y),
        x != "."@ && y != "."@,
        a.len() > 0,
        b.len() > 0,
    ensures
        same_path(x, y) <==> x == y,
        same_path(a.push('/') + x, b.push('/') + y) <==> same_path(a, b) && x == y,
        same_path(a, a),
        same_path(a.push('/'), a),
        same_path(a.push('/') + "."@, a),
        same_path(a.push('/').push('/') + x, a.push('/') + x),
        !same_path(seq!['/'] + x, x),
{
    reveal_strlit(".");
    assert("."@ =~= seq!['.']);
    let p = a.push('/') + x;
    let q = b.push('/') + y;
    law_last_component_is_behind_the_separator(a, x);
    law_last_component_is_behind_the_separator(b, y);
    law_last_component_is_behind_the_separator(a.push('/'), x);
    assert(p[0] == a[0] && q[0] == b[0]);
    assert(x[0] != '/' && y[0] != '/') by {
        if x[0] == '/' {
            assert(x.contains('/'));
        }
        if y[0] == '/' {
            assert(y.contains('/'));
        }
    }
    assert(seq![x][0] == x && seq![y][0] == y);
    if parts(p) == parts(q) {
        assert(parts(a).push(x).last() == x && parts(b).push(y).last() == y);
        assert(parts(a) =~= parts(a).push(x).drop_last());
        assert(parts(b) =~= parts(b).push(y).drop_last());
    }
    let dot = seq!['.'];
    assert(!dot.contains('/')) by {
        assert(dot[0] == '.');
    }
    law_last_component_is_behind_the_separator(a, dot);
    assert((a.push('/') + dot)[0] == a[0]);
    assert((a.push('/').push('/') + x)[0] == a[0]);
    assert(a.push('/')[0] == a[0]);
    assert((seq!['/'] + x)[0] == '/');
}

} // verus!
