//! State that the merge keeps while it goes through the layers, newest first.
//!
//! - [`WhiteoutTracker`] records what newer layers have removed, in a path
//!   trie, and answers whether an entry of an older layer is suppressed.
//! - [`EmittedPathTracker`] records the paths that have been claimed or written.
//! - [`HardLinkTracker`] keeps hard links back until all layers are done, and
//!   the content of suppressed files that surviving links still need.

use crate::canonical::{CanonicalTarHeader, HeaderView};
use crate::order::{law_sorted, lemma_sorted_map, sort_stable, sorted_by, Keyed};
use crate::path::{
    key_of, law_key_identifies_path, names, normal_components, path_key, same_path,
};
use crate::text::{copy_bytes, same_text, texts};
use vstd::hash_map::StringHashMap;
use vstd::hash_set::StringHashSet;
use vstd::prelude::*;

verus! {

// ── Whiteouts ───────────────────────────────────────────────────────────────

/// What has been removed: for a path, the newest layer that removed it.
#[verifier::ext_equal]
pub struct Marks {
    /// Paths removed by a whiteout, with everything below them.
    pub whiteouts: Map<Seq<Seq<char>>, nat>,
    /// Paths at which something other than a directory stands, which hides
    /// everything below them.
    pub shadows: Map<Seq<Seq<char>>, nat>,
}

/// `m` with `layer` recorded at `p`, unless a newer layer stands there.
pub open spec fn mark_newest(
    m: Map<Seq<Seq<char>>, nat>,
    p: Seq<Seq<char>>,
    layer: nat,
) -> Map<Seq<Seq<char>>, nat> {
    if m.contains_key(p) && m[p] >= layer {
        m
    } else {
        m.insert(p, layer)
    }
}

/// Whether `m` holds a layer newer than `layer` at `p`.
pub open spec fn newer_at(m: Map<Seq<Seq<char>>, nat>, p: Seq<Seq<char>>, layer: nat) -> bool {
    m.contains_key(p) && m[p] > layer
}

/// Whether the path `p` of layer `layer` is removed: a newer layer has a
/// whiteout at `p` or at something above it, or has put something other than a
/// directory above it.
pub open spec fn suppressed(m: Marks, p: Seq<Seq<char>>, layer: nat) -> bool {
    ||| exists|k: int| 0 <= k <= p.len() && #[trigger] newer_at(m.whiteouts, p.take(k), layer)
    ||| exists|k: int| 0 <= k < p.len() && #[trigger] newer_at(m.shadows, p.take(k), layer)
}

impl Default for WhiteoutTracker {
    fn default() -> (r: Self)
        ensures
            r.wf(),
            r@ == (Marks { whiteouts: Map::empty(), shadows: Map::empty() }),
    {
        WhiteoutTracker::new()
    }
}

struct WhiteoutNode {
    /// The newest layer with a whiteout at this node.
    whiteout: Option<usize>,
    /// The newest layer with something other than a directory at this node.
    shadow: Option<usize>,
    /// The nodes below, by component.
    children: StringHashMap<usize>,
    /// The path of this node.
    at: Ghost<Seq<Seq<char>>>,
}

/// Whether `value` is what `m` holds at `p`.
spec fn agrees(value: Option<usize>, m: Map<Seq<Seq<char>>, nat>, p: Seq<Seq<char>>) -> bool {
    match value {
        Some(n) => m.contains_key(p) && m[p] == n,
        None => !m.contains_key(p),
    }
}

spec fn links_to(nodes: Seq<WhiteoutNode>, k: int, x: Seq<char>, j: int) -> bool {
    &&& 0 <= k < nodes.len()
    &&& nodes[k].children@.contains_key(x)
    &&& nodes[k].children@[x] == j
}

spec fn labelled(nodes: Seq<WhiteoutNode>, j: int, p: Seq<Seq<char>>) -> bool {
    0 <= j < nodes.len() && nodes[j].at@ == p
}

spec fn trie_ok(nodes: Seq<WhiteoutNode>) -> bool {
    &&& nodes.len() >= 1
    &&& nodes[0].at@ == Seq::<Seq<char>>::empty()
    &&& forall|k: int, x: Seq<char>|
        #![trigger nodes[k].children@.contains_key(x)]
        0 <= k < nodes.len() && nodes[k].children@.contains_key(x) ==> {
            let c = nodes[k].children@[x] as int;
            c < nodes.len() && nodes[c].at@ == nodes[k].at@.push(x)
        }
    &&& forall|j: int|
        0 < j < nodes.len() ==> (#[trigger] nodes[j]).at@.len() > 0 && exists|k: int|
            #[trigger] links_to(nodes, k, nodes[j].at@.last(), j) && nodes[k].at@
                == nodes[j].at@.drop_last()
    &&& forall|i: int, j: int|
        0 <= i < nodes.len() && 0 <= j < nodes.len() && (#[trigger] nodes[i]).at@ == (
        #[trigger] nodes[j]).at@ ==> i == j
}

/// A path trie of what newer layers have removed.
///
/// A mark recorded for layer N acts on layers below N only: what a layer adds
/// beside its own whiteout stays.
pub struct WhiteoutTracker {
    nodes: Vec<WhiteoutNode>,
    marks: Ghost<Marks>,
}

impl View for WhiteoutTracker {
    type V = Marks;

    closed spec fn view(&self) -> Marks {
        self.marks@
    }
}

impl WhiteoutTracker {
    /// Whether the trie holds exactly the recorded marks.
    #[verifier::opaque]
    pub closed spec fn wf(&self) -> bool {
        &&& trie_ok(self.nodes@)
        &&& forall|j: int|
            0 <= j < self.nodes@.len() ==> agrees(
                (#[trigger] self.nodes@[j]).whiteout,
                self.marks@.whiteouts,
                self.nodes@[j].at@,
            ) && agrees(self.nodes@[j].shadow, self.marks@.shadows, self.nodes@[j].at@)
        &&& forall|p: Seq<Seq<char>>| #[trigger]
            self.marks@.whiteouts.contains_key(p) ==> exists|j: int|
                #[trigger] labelled(self.nodes@, j, p)
        &&& forall|p: Seq<Seq<char>>| #[trigger]
            self.marks@.shadows.contains_key(p) ==> exists|j: int|
                #[trigger] labelled(self.nodes@, j, p)
    }

    /// A tracker with nothing recorded.
    pub fn new() -> (r: Self)
        ensures
            r.wf(),
            r@ == (Marks { whiteouts: Map::empty(), shadows: Map::empty() }),
    {
        let root = WhiteoutNode {
            whiteout: None,
            shadow: None,
            children: StringHashMap::new(),
            at: Ghost(Seq::empty()),
        };
        let mut nodes: Vec<WhiteoutNode> = Vec::new();
        nodes.push(root);
        let r = WhiteoutTracker {
            nodes,
            marks: Ghost(Marks { whiteouts: Map::empty(), shadows: Map::empty() }),
        };
        proof {
            reveal(WhiteoutTracker::wf);
        }
        r
    }

    /// Record a simple whiteout for `path`, declared in `layer_index`.
    ///
    /// Suppresses `path` and what is below it in all older layers.
    pub fn insert_simple(&mut self, path: &str, layer_index: usize)
        requires
            old(self).wf(),
        ensures
            final(self).wf(),
            final(self)@ == (Marks {
                whiteouts: mark_newest(
                    old(self)@.whiteouts,
                    names(path@),
                    layer_index as nat,
                ),
                ..old(self)@
            }),
    {
        self.mark_whiteout(path, layer_index)
    }

    /// Record an opaque whiteout for `dir_path`, declared in `layer_index`.
    ///
    /// Suppresses everything at and under `dir_path` in all older layers.
    pub fn insert_opaque(&mut self, dir_path: &str, layer_index: usize)
        requires
            old(self).wf(),
        ensures
            final(self).wf(),
            final(self)@ == (Marks {
                whiteouts: mark_newest(
                    old(self)@.whiteouts,
                    names(dir_path@),
                    layer_index as nat,
                ),
                ..old(self)@
            }),
    {
        self.mark_whiteout(dir_path, layer_index)
    }

    fn mark_whiteout(&mut self, path: &str, layer_index: usize)
        requires
            old(self).wf(),
        ensures
            final(self).wf(),
            final(self)@ == (Marks {
                whiteouts: mark_newest(
                    old(self)@.whiteouts,
                    names(path@),
                    layer_index as nat,
                ),
                ..old(self)@
            }),
    {
        let n: usize = self.walk_or_create(path);
        let ghost p = names(path@);
        let ghost before = self.nodes@;
        proof {
            reveal(WhiteoutTracker::wf);
        }
        match self.nodes[n].whiteout {
            Some(have) if have >= layer_index => {},
            _ => {
                self.nodes[n].whiteout = Some(layer_index);
                proof {
                    lemma_trie_ok_kept(before, self.nodes@);
                    self.marks@ = Marks {
                        whiteouts: self.marks@.whiteouts.insert(p, layer_index as nat),
                        ..self.marks@
                    };
                }
            },
        }
    }

    /// Walk the trie to the node for `path`, creating nodes as needed.
    fn walk_or_create(&mut self, path: &str) -> (n: usize)
        requires
            old(self).wf(),
        ensures
            final(self).wf(),
            final(self)@ == old(self)@,
            labelled(final(self).nodes@, n as int, names(path@)),
    {
        let comps = normal_components(path);
        let mut n: usize = 0;
        proof {
            reveal(WhiteoutTracker::wf);
            assert(texts(comps@).take(0) =~= Seq::empty());
        }
        for i in 0..comps.len()
            invariant
                texts(comps@) == names(path@),
                self.wf(),
                self@ == old(self)@,
                labelled(self.nodes@, n as int, texts(comps@).take(i as int)),
        {
            n = self.child_or_create(n, &comps[i]);
            assert(texts(comps@).take(i as int).push(comps@[i as int]@) =~= texts(comps@).take(
                i + 1,
            ));
        }
        assert(texts(comps@).take(comps.len() as int) =~= names(path@));
        n
    }

    /// The node for component `comp` below node `n`, created if need be.
    #[verifier::rlimit(40)]
    fn child_or_create(&mut self, n: usize, comp: &String) -> (c: usize)
        requires
            old(self).wf(),
            n < old(self).nodes@.len(),
        ensures
            final(self).wf(),
            final(self)@ == old(self)@,
            labelled(final(self).nodes@, c as int, old(self).nodes@[n as int].at@.push(comp@)),
    {
        proof {
            reveal(WhiteoutTracker::wf);
        }
        if let Some(c) = self.nodes[n].children.get(comp.as_str()) {
            assert(self.nodes@[n as int].children@.contains_key(comp@));
            return *c;
        }
        let ghost before = self.nodes@;
        let ghost at = before[n as int].at@.push(comp@);
        let c: usize = self.nodes.len();
        proof {
            assert forall|j: int| 0 <= j < before.len() implies before[j].at@ != at by {
                if before[j].at@ == at {
                    assert(at.drop_last() =~= before[n as int].at@);
                    if j > 0 {
                        let k = choose|k: int| #[trigger]
                            links_to(before, k, before[j].at@.last(), j) && before[k].at@
                                == before[j].at@.drop_last();
                        assert(k == n);
                        assert(before[n as int].children@.contains_key(comp@));
                    }
                }
            }
        }
        self.nodes.push(
            WhiteoutNode {
                whiteout: None,
                shadow: None,
                children: StringHashMap::new(),
                at: Ghost(at),
            },
        );
        self.nodes[n].children.insert(comp.clone(), c);
        proof {
            let nodes = self.nodes@;
            assert(nodes.len() == before.len() + 1);
            assert forall|j: int| 0 <= j < before.len() implies (#[trigger] nodes[j]).at@
                == before[j].at@ && nodes[j].whiteout == before[j].whiteout && nodes[j].shadow
                == before[j].shadow by {}
            assert forall|k: int, x: Seq<char>|
                #![trigger nodes[k].children@.contains_key(x)]
                0 <= k < nodes.len() && nodes[k].children@.contains_key(x) implies {
                let d = nodes[k].children@[x] as int;
                d < nodes.len() && nodes[d].at@ == nodes[k].at@.push(x)
            } by {
                if k < before.len() && !(k == n && x == comp@) {
                    assert(before[k].children@.contains_key(x));
                }
            }
            assert forall|j: int| 0 < j < nodes.len() implies (#[trigger] nodes[j]).at@.len() > 0
                && exists|k: int|
                #[trigger] links_to(nodes, k, nodes[j].at@.last(), j) && nodes[k].at@
                    == nodes[j].at@.drop_last() by {
                if j < before.len() {
                    assert(before[j].at@.len() > 0);
                    let k = choose|k: int| #[trigger]
                        links_to(before, k, before[j].at@.last(), j) && before[k].at@
                            == before[j].at@.drop_last();
                    assert(links_to(nodes, k, nodes[j].at@.last(), j));
                } else {
                    assert(at.drop_last() =~= before[n as int].at@);
                    assert(links_to(nodes, n as int, nodes[j].at@.last(), j));
                }
            }
            assert(trie_ok(nodes));
            assert(!self.marks@.whiteouts.contains_key(at)) by {
                if self.marks@.whiteouts.contains_key(at) {
                    let j = choose|j: int| #[trigger] labelled(before, j, at);
                }
            }
            assert(!self.marks@.shadows.contains_key(at)) by {
                if self.marks@.shadows.contains_key(at) {
                    let j = choose|j: int| #[trigger] labelled(before, j, at);
                }
            }
            assert forall|p: Seq<Seq<char>>| #[trigger]
                self.marks@.whiteouts.contains_key(p) implies exists|j: int|
                #[trigger] labelled(nodes, j, p) by {
                let j = choose|j: int| #[trigger] labelled(before, j, p);
                assert(labelled(nodes, j, p));
            }
            assert forall|p: Seq<Seq<char>>| #[trigger]
                self.marks@.shadows.contains_key(p) implies exists|j: int|
                #[trigger] labelled(nodes, j, p) by {
                let j = choose|j: int| #[trigger] labelled(before, j, p);
                assert(labelled(nodes, j, p));
            }
        }
        c
    }

    /// Record that `path` of layer `layer_index` is not a directory, which
    /// suppresses everything below `path` in all older layers. The root is
    /// always a directory: nothing is recorded for it.
    pub fn insert_shadow(&mut self, path: &str, layer_index: usize)
        requires
            old(self).wf(),
        ensures
            final(self).wf(),
            final(self)@ == (Marks {
                shadows: if names(path@).len() == 0 {
                    old(self)@.shadows
                } else {
                    mark_newest(old(self)@.shadows, names(path@), layer_index as nat)
                },
                ..old(self)@
            }),
    {
        let comps = normal_components(path);
        if comps.len() == 0 {
            assert(texts(comps@).len() == 0);
            return;
        }
        assert(texts(comps@).len() > 0);
        let n: usize = self.walk_or_create(path);
        let ghost p = names(path@);
        let ghost before = self.nodes@;
        proof {
            reveal(WhiteoutTracker::wf);
        }
        match self.nodes[n].shadow {
            Some(have) if have >= layer_index => {},
            _ => {
                self.nodes[n].shadow = Some(layer_index);
                proof {
                    lemma_trie_ok_kept(before, self.nodes@);
                    self.marks@ = Marks {
                        shadows: self.marks@.shadows.insert(p, layer_index as nat),
                        ..self.marks@
                    };
                }
            },
        }
    }

    /// Return `true` if `path` from `current_layer` should be suppressed.
    ///
    /// A path is suppressed if any prefix of it (including the path itself)
    /// has a whiteout recorded for a layer newer than `current_layer`, or if
    /// such a layer put something other than a directory at a proper prefix.
    pub fn is_suppressed(&self, path: &str, current_layer: usize) -> (r: bool)
        requires
            self.wf(),
        ensures
            r == suppressed(self@, names(path@), current_layer as nat),
    {
        let comps = normal_components(path);
        let ghost p = names(path@);
        let ghost m = self@;
        proof {
            reveal(WhiteoutTracker::wf);
        }
        let mut n: usize = 0;
        let mut i: usize = 0;
        assert(texts(comps@).take(0) =~= Seq::empty());
        loop
            invariant
                self.wf(),
                m == self@,
                p == texts(comps@),
                p == names(path@),
                i <= comps.len(),
                labelled(self.nodes@, n as int, p.take(i as int)),
                forall|k: int|
                    0 <= k < i ==> !(#[trigger] newer_at(
                        m.whiteouts,
                        p.take(k),
                        current_layer as nat,
                    )),
                forall|k: int|
                    0 <= k < i ==> !(#[trigger] newer_at(
                        m.shadows,
                        p.take(k),
                        current_layer as nat,
                    )),
            decreases comps.len() - i,
        {
            proof {
                reveal(WhiteoutTracker::wf);
            }
            let ghost here = p.take(i as int);
            assert(self.nodes@[n as int].at@ == here);
            if let Some(w) = self.nodes[n].whiteout {
                if w > current_layer {
                    assert(newer_at(m.whiteouts, p.take(i as int), current_layer as nat));
                    return true;
                }
            }
            assert(!newer_at(m.whiteouts, p.take(i as int), current_layer as nat));
            if i == comps.len() {
                return false;
            }
            if let Some(s) = self.nodes[n].shadow {
                if s > current_layer {
                    assert(newer_at(m.shadows, p.take(i as int), current_layer as nat));
                    return true;
                }
            }
            assert(!newer_at(m.shadows, p.take(i as int), current_layer as nat));
            assert(here.push(comps@[i as int]@) =~= p.take(i + 1));
            match self.nodes[n].children.get(comps[i].as_str()) {
                Some(c) => {
                    assert(self.nodes@[n as int].children@.contains_key(comps@[i as int]@));
                    n = *c;
                    i = i + 1;
                },
                None => {
                    proof {
                        assert forall|k: int| i < k <= p.len() implies !labelled_somewhere(
                            self.nodes@,
                            #[trigger] p.take(k),
                        ) by {
                            lemma_no_node_below(self.nodes@, n as int, p, i as int, k);
                        }
                        assert forall|k: int| i < k <= p.len() implies !(
                        #[trigger] newer_at(m.whiteouts, p.take(k), current_layer as nat)) && !(
                        #[trigger] newer_at(m.shadows, p.take(k), current_layer as nat)) by {
                            assert(!labelled_somewhere(self.nodes@, p.take(k)));
                        }
                        assert forall|k: int| 0 <= k < p.len() implies !(#[trigger] newer_at(
                            m.shadows,
                            p.take(k),
                            current_layer as nat,
                        )) by {
                            if k > i {
                                assert(!newer_at(m.whiteouts, p.take(k), current_layer as nat));
                            }
                        }
                    }
                    return false;
                },
            }
        }
    }
}

spec fn labelled_somewhere(nodes: Seq<WhiteoutNode>, p: Seq<Seq<char>>) -> bool {
    exists|j: int| #[trigger] labelled(nodes, j, p)
}

/// The shape of the trie does not depend on what its nodes record.
proof fn lemma_trie_ok_kept(a: Seq<WhiteoutNode>, b: Seq<WhiteoutNode>)
    requires
        trie_ok(a),
        a.len() == b.len(),
        forall|j: int|
            0 <= j < a.len() ==> (#[trigger] b[j]).at == a[j].at && b[j].children == a[j].children,
    ensures
        trie_ok(b),
        forall|j: int, p: Seq<Seq<char>>| #[trigger] labelled(a, j, p) == labelled(b, j, p),
{
    assert forall|k: int, x: Seq<char>|
        #![trigger b[k].children@.contains_key(x)]
        0 <= k < b.len() && b[k].children@.contains_key(x) implies {
        let c = b[k].children@[x] as int;
        c < b.len() && b[c].at@ == b[k].at@.push(x)
    } by {
        assert(a[k].children@.contains_key(x));
    }
    assert forall|j: int| 0 < j < b.len() implies (#[trigger] b[j]).at@.len() > 0 && exists|k: int|
        #[trigger] links_to(b, k, b[j].at@.last(), j) && b[k].at@ == b[j].at@.drop_last() by {
        assert(a[j].at@.len() > 0);
        let k = choose|k: int| #[trigger]
            links_to(a, k, a[j].at@.last(), j) && a[k].at@ == a[j].at@.drop_last();
        assert(links_to(b, k, b[j].at@.last(), j));
    }
    assert forall|i: int, j: int|
        0 <= i < b.len() && 0 <= j < b.len() && (#[trigger] b[i]).at@ == (#[trigger] b[j]).at@
        implies i == j by {
        assert(a[i].at@ == a[j].at@);
    }
}

/// Where the trie ends, nothing deeper is in it.
proof fn lemma_no_node_below(
    nodes: Seq<WhiteoutNode>,
    n: int,
    p: Seq<Seq<char>>,
    i: int,
    k: int,
)
    requires
        trie_ok(nodes),
        0 <= i < k <= p.len(),
        labelled(nodes, n, p.take(i)),
        !nodes[n].children@.contains_key(p[i]),
    ensures
        !labelled_somewhere(nodes, p.take(k)),
    decreases k,
{
    if labelled_somewhere(nodes, p.take(k)) {
        let j = choose|j: int| #[trigger] labelled(nodes, j, p.take(k));
        assert(nodes[j].at@.len() == k);
        assert(j > 0);
        let parent = choose|x: int| #[trigger]
            links_to(nodes, x, nodes[j].at@.last(), j) && nodes[x].at@
                == nodes[j].at@.drop_last();
        assert(p.take(k).drop_last() =~= p.take(k - 1));
        assert(labelled(nodes, parent, p.take(k - 1)));
        if k - 1 == i {
            assert(parent == n);
        } else {
            lemma_no_node_below(nodes, n, p, i, k - 1);
        }
    }
}

// ── Emitted paths ───────────────────────────────────────────────────────────

/// Records paths: those that have been written to the output, or those whose
/// newest version has come by, written or waiting.
///
/// A path is written in the version of the newest layer that has it; older
/// versions find it here and are skipped.
pub struct EmittedPathTracker {
    paths: StringHashSet,
}

impl View for EmittedPathTracker {
    type V = Set<Seq<char>>;

    /// The keys of the paths.
    closed spec fn view(&self) -> Set<Seq<char>> {
        self.paths@
    }
}

impl Default for EmittedPathTracker {
    fn default() -> (r: Self)
        ensures
            r@ == Set::<Seq<char>>::empty(),
    {
        EmittedPathTracker::new()
    }
}

impl EmittedPathTracker {
    /// A tracker with nothing recorded.
    pub fn new() -> (r: Self)
        ensures
            r@ == Set::<Seq<char>>::empty(),
    {
        EmittedPathTracker { paths: StringHashSet::new() }
    }

    /// Mark `path` as emitted.
    pub fn insert(&mut self, path: &str)
        ensures
            final(self)@ == old(self)@.insert(path_key(path@)),
    {
        self.paths.insert(key_of(path));
    }

    /// Return `true` if `path` has already been emitted.
    pub fn contains(&self, path: &str) -> (r: bool)
        ensures
            r == self@.contains(path_key(path@)),
    {
        self.paths.contains(key_of(path).as_str())
    }
}

// ── Hard links ──────────────────────────────────────────────────────────────

/// The values of a [`HardLinkEntry`].
#[verifier::ext_equal]
pub struct LinkView {
    pub link: Seq<char>,
    pub target: Seq<char>,
    pub layer: nat,
    pub header: HeaderView,
}

/// A deferred hard link whose target is expected to appear in the output.
#[derive(Debug)]
pub struct HardLinkEntry {
    /// The path of the hard link itself.
    pub link_path: String,
    /// The path that the hard link points to.
    pub target_path: String,
    /// The layer that declares the hard link.
    pub layer_index: usize,
    /// The header of the hard link entry.
    pub canonical: CanonicalTarHeader,
}

impl View for HardLinkEntry {
    type V = LinkView;

    open spec fn view(&self) -> LinkView {
        LinkView {
            link: self.link_path@,
            target: self.target_path@,
            layer: self.layer_index as nat,
            header: self.canonical@,
        }
    }
}

impl Keyed for HardLinkEntry {
    open spec fn sort_key(self) -> int {
        self.layer_index as int
    }

    fn before(&self, other: &Self) -> (r: bool) {
        self.layer_index < other.layer_index
    }
}

/// The header and content of a file.
pub open spec fn file_view(f: Option<(CanonicalTarHeader, Vec<u8>)>) -> Option<
    (HeaderView, Seq<u8>),
> {
    match f {
        Some((h, d)) => Some((h@, d@)),
        None => None,
    }
}

/// The values of a [`PromotionEntry`].
#[verifier::ext_equal]
pub struct PromotionView {
    pub link: Seq<char>,
    pub target: Seq<char>,
    pub layer: nat,
    pub file: Option<(HeaderView, Seq<u8>)>,
}

/// A hard link whose target was suppressed by a newer layer but which itself
/// lives on, and must become a regular file.
///
/// If no content has come for it after all layers, the target was in no layer
/// and the promotion is dropped.
#[derive(Debug)]
pub struct PromotionEntry {
    /// The path of the surviving hard link.
    pub link_path: String,
    /// The path of the suppressed target.
    pub target_path: String,
    /// The layer that declares the hard link.
    pub layer_index: usize,
    /// Header and content of the suppressed target, once they are known.
    pub file_data: Option<(CanonicalTarHeader, Vec<u8>)>,
}

impl View for PromotionEntry {
    type V = PromotionView;

    open spec fn view(&self) -> PromotionView {
        PromotionView {
            link: self.link_path@,
            target: self.target_path@,
            layer: self.layer_index as nat,
            file: file_view(self.file_data),
        }
    }
}

impl Keyed for PromotionEntry {
    open spec fn sort_key(self) -> int {
        self.layer_index as int
    }

    fn before(&self, other: &Self) -> (r: bool) {
        self.layer_index < other.layer_index
    }
}

/// The values of deferred links.
pub open spec fn link_views(v: Seq<HardLinkEntry>) -> Seq<LinkView> {
    v.map_values(|e: HardLinkEntry| e@)
}

/// The values of promotions.
pub open spec fn promotion_views(v: Seq<PromotionEntry>) -> Seq<PromotionView> {
    v.map_values(|e: PromotionEntry| e@)
}

/// What a [`HardLinkTracker`] holds.
#[verifier::ext_equal]
pub struct HardLinks {
    /// Links whose target lives, in the order of recording.
    pub deferred: Seq<LinkView>,
    /// Links whose target was suppressed, in the order of recording.
    pub promotions: Seq<PromotionView>,
    /// Suppressed files of the current layer, by path key.
    pub buffered: Map<Seq<char>, (HeaderView, Seq<u8>)>,
}

/// `p` with `file` filled in, if it waits for the content of `path`.
pub open spec fn filled_in(p: PromotionView, path: Seq<char>, file: (HeaderView, Seq<u8>)) -> PromotionView {
    if path_key(p.target) == path_key(path) && p.file is None {
        PromotionView { file: Some(file), ..p }
    } else {
        p
    }
}

/// The promotions in order, each filled in with `file` if it waits for `path`.
pub open spec fn all_filled_in(
    s: Seq<PromotionView>,
    path: Seq<char>,
    file: (HeaderView, Seq<u8>),
) -> Seq<PromotionView> {
    Seq::new(s.len(), |i: int| filled_in(s[i], path, file))
}

/// Deferred links by ascending layer.
pub open spec fn links_by_layer(s: Seq<LinkView>) -> Seq<LinkView> {
    sorted_by(s, |l: LinkView| l.layer as int)
}

/// Promotions by ascending layer.
pub open spec fn promotions_by_layer(s: Seq<PromotionView>) -> Seq<PromotionView> {
    sorted_by(s, |p: PromotionView| p.layer as int)
}

/// Keeps hard links back until all layers are processed.
///
/// Layers come newest first, so the target of a hard link may not have been
/// seen yet. A link whose target lives is deferred; one whose target was
/// suppressed is to be promoted to a regular file.
pub struct HardLinkTracker {
    deferred: Vec<HardLinkEntry>,
    promotions: Vec<PromotionEntry>,
    suppressed_content: StringHashMap<(CanonicalTarHeader, Vec<u8>)>,
}

impl View for HardLinkTracker {
    type V = HardLinks;

    closed spec fn view(&self) -> HardLinks {
        HardLinks {
            deferred: link_views(self.deferred@),
            promotions: promotion_views(self.promotions@),
            buffered: Map::new(
                |k: Seq<char>| self.suppressed_content@.contains_key(k),
                |k: Seq<char>|
                    (self.suppressed_content@[k].0@, self.suppressed_content@[k].1@),
            ),
        }
    }
}

impl Default for HardLinkTracker {
    fn default() -> (r: Self)
        ensures
            r@ == (HardLinks {
                deferred: Seq::empty(),
                promotions: Seq::empty(),
                buffered: Map::empty(),
            }),
    {
        HardLinkTracker::new()
    }
}

impl HardLinkTracker {
    /// A tracker with nothing recorded.
    pub fn new() -> (r: Self)
        ensures
            r@ == (HardLinks {
                deferred: Seq::empty(),
                promotions: Seq::empty(),
                buffered: Map::empty(),
            }),
    {
        let r = HardLinkTracker {
            deferred: Vec::new(),
            promotions: Vec::new(),
            suppressed_content: StringHashMap::new(),
        };
        assert(r@.deferred =~= Seq::empty());
        assert(r@.promotions =~= Seq::empty());
        assert(r@.buffered =~= Map::empty());
        r
    }

    /// Record a hard link whose target is not suppressed.
    pub fn record(
        &mut self,
        link_path: String,
        target_path: String,
        layer_index: usize,
        canonical: CanonicalTarHeader,
    )
        ensures
            final(self)@ == (HardLinks {
                deferred: old(self)@.deferred.push(
                    LinkView {
                        link: link_path@,
                        target: target_path@,
                        layer: layer_index as nat,
                        header: canonical@,
                    },
                ),
                ..old(self)@
            }),
    {
        let ghost before = link_views(self.deferred@);
        let entry = HardLinkEntry { link_path, target_path, layer_index, canonical };
        let ghost e = entry@;
        self.deferred.push(entry);
        assert(link_views(self.deferred@) =~= before.push(e));
    }

    /// Buffer the header and content of a suppressed regular file.
    ///
    /// Every promotion that waits for this path gets them, and a hard link
    /// later in the same layer finds them.
    pub fn note_suppressed_file(
        &mut self,
        path: String,
        canonical: CanonicalTarHeader,
        data: Vec<u8>,
    )
        ensures
            final(self)@ == (HardLinks {
                promotions: all_filled_in(
                    old(self)@.promotions,
                    path@,
                    (canonical@, data@),
                ),
                buffered: old(self)@.buffered.insert(path_key(path@), (canonical@, data@)),
                ..old(self)@
            }),
            final(self)@.promotions.len() == old(self)@.promotions.len(),
            forall|i: int|
                #![trigger final(self)@.promotions[i]]
                0 <= i < old(self)@.promotions.len() ==> {
                    let was = old(self)@.promotions[i];
                    let now = final(self)@.promotions[i];
                    if same_path(was.target, path@) && was.file is None {
                        now == (PromotionView { file: Some((canonical@, data@)), ..was })
                    } else {
                        now == was
                    }
                },
    {
        let key = key_of(path.as_str());
        let ghost file = (canonical@, data@);
        let ghost before = promotion_views(self.promotions@);
        let ghost buffered = self@.buffered;
        let n: usize = self.promotions.len();
        for i in 0..n
            invariant
                n == before.len(),
                key@ == path_key(path@),
                file == (canonical@, data@),
                self.deferred == old(self).deferred,
                self.suppressed_content == old(self).suppressed_content,
                before.len() == self.promotions@.len(),
                forall|j: int|
                    0 <= j < before.len() ==> #[trigger] self.promotions@[j]@ == if j < i {
                        filled_in(before[j], path@, file)
                    } else {
                        before[j]
                    },
        {
            let same = same_text(key_of(self.promotions[i].target_path.as_str()).as_str(), key.as_str());
            let ghost was = self.promotions@[i as int]@;
            if same && self.promotions[i].file_data.is_none() {
                self.promotions[i].file_data =
                Some((canonical.clone(), copy_bytes(data.as_slice())));
            }
            assert(self.promotions@[i as int]@ == filled_in(was, path@, file));
        }
        assert(promotion_views(self.promotions@) =~= all_filled_in(before, path@, file));
        self.suppressed_content.insert(key, (canonical, data));
        assert(self@.buffered =~= buffered.insert(path_key(path@), file));
        proof {
            assert forall|i: int|
                #![trigger self@.promotions[i]]
                0 <= i < before.len() implies (path_key(before[i].target) == path_key(path@)) == (
            same_path(before[i].target, path@)) by {
                law_key_identifies_path(before[i].target, path@);
            }
        }
    }

    /// Record that `link_path` must become a regular file, because its target
    /// was suppressed. Content that is already buffered is attached at once.
    pub fn record_promotion(&mut self, link_path: String, target_path: String, layer_index: usize)
        ensures
            final(self)@ == (HardLinks {
                promotions: old(self)@.promotions.push(
                    PromotionView {
                        link: link_path@,
                        target: target_path@,
                        layer: layer_index as nat,
                        file: if old(self)@.buffered.contains_key(path_key(target_path@)) {
                            Some(old(self)@.buffered[path_key(target_path@)])
                        } else {
                            None
                        },
                    },
                ),
                ..old(self)@
            }),
    {
        let key = key_of(target_path.as_str());
        let file_data = match self.suppressed_content.get(key.as_str()) {
            Some(f) => Some((f.0.clone(), copy_bytes(f.1.as_slice()))),
            None => None,
        };
        let ghost before = promotion_views(self.promotions@);
        let entry = PromotionEntry { link_path, target_path, layer_index, file_data };
        let ghost e = entry@;
        self.promotions.push(entry);
        assert(promotion_views(self.promotions@) =~= before.push(e));
    }

    /// Discard the suppressed files of the layer that has been processed.
    pub fn end_layer(&mut self)
        ensures
            final(self)@ == (HardLinks { buffered: Map::empty(), ..old(self)@ }),
    {
        self.suppressed_content.clear();
        assert(self@.buffered =~= Map::empty());
    }

    /// Consume the tracker and return the deferred links and the promotions,
    /// both sorted by ascending layer.
    pub fn drain_sorted(self) -> (r: (Vec<HardLinkEntry>, Vec<PromotionEntry>))
        ensures
            link_views(r.0@) == links_by_layer(self@.deferred),
            promotion_views(r.1@) == promotions_by_layer(self@.promotions),
            forall|i: int, j: int|
                0 <= i < j < r.0@.len() ==> (#[trigger] r.0@[i]).layer_index <= (
                #[trigger] r.0@[j]).layer_index,
            forall|i: int, j: int|
                0 <= i < j < r.1@.len() ==> (#[trigger] r.1@[i]).layer_index <= (
                #[trigger] r.1@[j]).layer_index,
    {
        proof {
            lemma_sorted_map(
                self.deferred@,
                |e: HardLinkEntry| e@,
                |e: HardLinkEntry| e.sort_key(),
                |l: LinkView| l.layer as int,
            );
            lemma_sorted_map(
                self.promotions@,
                |e: PromotionEntry| e@,
                |e: PromotionEntry| e.sort_key(),
                |p: PromotionView| p.layer as int,
            );
        }
        proof {
            law_sorted(self.deferred@, |e: HardLinkEntry| e.sort_key());
            law_sorted(self.promotions@, |e: PromotionEntry| e.sort_key());
        }
        (sort_stable(self.deferred), sort_stable(self.promotions))
    }
}

} // verus!
