//! What merging layers means.
//!
//! Layers are processed newest first. Every entry is judged against what the
//! newer layers have left behind: a whiteout removes older content, the first
//! version of a path wins, and hard links wait until all layers are done.

use crate::archive::{
    after_entries, archive_entries, no_entries, oversized, reads, zeros, ArchiveView, EntryView,
};
use crate::canonical::{
    as_regular, captured, entry_bytes, entry_readable, hardlink_bytes, hardlink_readable,
    hardlink_seen, link_name_of, shows_entry, type_of, EntryType, HeaderError, HeaderView,
};
use crate::layers::{compression_of, decoded};
use crate::order::sorted_by;
use crate::packer::PackerProgress;
use crate::path::{is_normal, names, normalized, normals, parts, path_key, path_less, same_path};
use crate::resequence::released_after;
use crate::text::lossy_text;
use crate::tracker::{
    all_filled_in, links_by_layer, mark_newest, promotions_by_layer, suppressed, HardLinks,
    LinkView, Marks, PromotionView,
};
use vstd::prelude::*;

verus! {

// ── Paths of entries ────────────────────────────────────────────────────────

/// The normalised form of a raw path.
pub open spec fn clean_path(raw: Seq<u8>) -> Seq<char> {
    normalized(lossy_text(raw))
}

/// Whether a normalised path stands for the root directory.
pub open spec fn is_root(p: Seq<char>) -> bool {
    p.len() == 0 || parts(p) == seq![seq!['.']]
}

/// The last component of a path, or nothing where it names nothing.
pub open spec fn file_name(p: Seq<char>) -> Seq<char> {
    if parts(p).len() > 0 && is_normal(parts(p).last()) {
        parts(p).last()
    } else {
        Seq::empty()
    }
}

/// The names above the last component of a path.
pub open spec fn parent_names(p: Seq<char>) -> Seq<Seq<char>> {
    normals(parts(p).drop_last())
}

/// The names of `name` below `dir`, where `name` is one component or empty.
pub open spec fn child_names(dir: Seq<Seq<char>>, name: Seq<char>) -> Seq<Seq<char>> {
    if name.len() > 0 && is_normal(name) {
        dir.push(name)
    } else {
        dir
    }
}

/// What the name of an entry says.
pub enum Naming {
    /// The entry is the root directory.
    Root,
    /// The entry removes this path from older layers.
    Whiteout(Seq<Seq<char>>),
    /// The entry is content.
    Content,
}

/// What the path of an entry says. The file name `.wh..wh..opq` removes the
/// content of its directory, and `.wh.` before a name removes that name.
pub open spec fn naming(p: Seq<char>) -> Naming {
    if is_root(p) {
        Naming::Root
    } else if file_name(p) == ".wh..wh..opq"@ {
        Naming::Whiteout(parent_names(p))
    } else if ".wh."@.is_prefix_of(file_name(p)) {
        Naming::Whiteout(child_names(parent_names(p), file_name(p).skip(4)))
    } else {
        Naming::Content
    }
}

// ── One entry ───────────────────────────────────────────────────────────────

/// What is known after some entries of some layers.
#[verifier::ext_equal]
pub struct MergeView {
    pub marks: Marks,
    /// The paths whose newest version has come by, written or waiting.
    pub claimed: Set<Seq<char>>,
    /// The paths that have been written.
    pub emitted: Set<Seq<char>>,
    pub links: HardLinks,
}

/// Nothing is known yet.
pub open spec fn nothing_merged() -> MergeView {
    MergeView {
        marks: Marks { whiteouts: Map::empty(), shadows: Map::empty() },
        claimed: Set::empty(),
        emitted: Set::empty(),
        links: HardLinks {
            deferred: Seq::empty(),
            promotions: Seq::empty(),
            buffered: Map::empty(),
        },
    }
}

/// Why a merge fails.
pub enum MergeFault {
    /// The header of an entry cannot be captured.
    Header(HeaderError),
    /// A hard link has no target.
    NoLinkTarget,
    /// The media type of a layer is not known.
    UnsupportedMediaType,
    /// A layer cannot be decompressed.
    Decode,
    /// A layer is not a readable tar archive.
    Archive,
    /// An entry cannot be written.
    Write,
    /// A layer could not be had, for the given reason.
    Download(Seq<char>),
    /// No more layers came although not all had.
    Closed { received: nat, total: nat },
}

/// What becomes of an entry.
pub enum AdmissionView {
    /// Nothing is written.
    Skip,
    /// The content is suppressed, but a hard link may need it.
    Buffer { path: Seq<char>, header: HeaderView },
    /// The entry is written.
    Emit { path: Seq<char>, header: HeaderView },
}

/// `m` with the whiteout of `p` in `layer`.
pub open spec fn with_whiteout(m: Marks, p: Seq<Seq<char>>, layer: nat) -> Marks {
    Marks { whiteouts: mark_newest(m.whiteouts, p, layer), ..m }
}

/// `m` with something of the given type at `p` in `layer`. Anything but a
/// directory hides what older layers have below it.
pub open spec fn with_entry(m: Marks, p: Seq<Seq<char>>, kind: EntryType, layer: nat) -> Marks {
    if kind == EntryType::Directory || p.len() == 0 {
        m
    } else {
        Marks { shadows: mark_newest(m.shadows, p, layer), ..m }
    }
}

/// `l` with a hard link at `path` of `layer`, whose target is suppressed or not.
pub open spec fn with_link(
    l: HardLinks,
    path: Seq<char>,
    target: Seq<char>,
    layer: nat,
    header: HeaderView,
    target_suppressed: bool,
) -> HardLinks {
    if target_suppressed {
        HardLinks {
            promotions: l.promotions.push(
                PromotionView {
                    link: path,
                    target,
                    layer,
                    file: if l.buffered.contains_key(path_key(target)) {
                        Some(l.buffered[path_key(target)])
                    } else {
                        None
                    },
                },
            ),
            ..l
        }
    } else {
        HardLinks { deferred: l.deferred.push(LinkView { link: path, target, layer, header }), ..l }
    }
}

/// What becomes of a content entry that is neither suppressed nor a duplicate.
/// Its path is claimed, so that older versions of it are duplicates.
pub open spec fn admitted(
    st: MergeView,
    path: Seq<char>,
    header: HeaderView,
    layer: nat,
) -> Result<(MergeView, AdmissionView), MergeFault> {
    let marks = with_entry(st.marks, names(path), type_of(header), layer);
    let claimed = st.claimed.insert(path_key(path));
    if type_of(header) == EntryType::Link {
        match link_name_of(header) {
            None => Err(MergeFault::NoLinkTarget),
            Some(raw) => {
                let target = clean_path(raw);
                let gone = suppressed(st.marks, names(target), layer);
                Ok(
                    (
                        MergeView {
                            marks,
                            claimed,
                            links: with_link(st.links, path, target, layer, header, gone),
                            ..st
                        },
                        AdmissionView::Skip,
                    ),
                )
            },
        }
    } else {
        Ok(
            (
                MergeView { marks, claimed, emitted: st.emitted.insert(path_key(path)), ..st },
                AdmissionView::Emit { path, header },
            ),
        )
    }
}

/// What becomes of an entry of `layer`, apart from its content.
pub open spec fn admission(st: MergeView, e: EntryView, layer: nat) -> Result<
    (MergeView, AdmissionView),
    MergeFault,
> {
    let path = clean_path(e.path);
    match naming(path) {
        Naming::Root => Ok((st, AdmissionView::Skip)),
        Naming::Whiteout(p) => Ok(
            (MergeView { marks: with_whiteout(st.marks, p, layer), ..st }, AdmissionView::Skip),
        ),
        Naming::Content => if suppressed(st.marks, names(path), layer) {
            let kind = type_of(HeaderView { block: e.header, pax: Seq::empty() });
            if kind == EntryType::Regular || kind == EntryType::Continuous {
                match captured(e) {
                    Err(f) => Err(MergeFault::Header(f)),
                    Ok(header) => Ok((st, AdmissionView::Buffer { path, header })),
                }
            } else {
                Ok((st, AdmissionView::Skip))
            }
        } else if st.claimed.contains(path_key(path)) {
            Ok((st, AdmissionView::Skip))
        } else {
            match captured(e) {
                Err(f) => Err(MergeFault::Header(f)),
                Ok(header) => admitted(st, path, header, layer),
            }
        },
    }
}

/// `st` with the content of a suppressed file.
pub open spec fn with_buffered(
    st: MergeView,
    path: Seq<char>,
    header: HeaderView,
    data: Seq<u8>,
) -> MergeView {
    MergeView {
        links: HardLinks {
            promotions: all_filled_in(st.links.promotions, path, (header, data)),
            buffered: st.links.buffered.insert(path_key(path), (header, data)),
            ..st.links
        },
        ..st
    }
}

// ── Output ──────────────────────────────────────────────────────────────────

/// Something that is written.
pub enum EmissionView {
    /// An entry with its content.
    Entry { header: HeaderView, path: Seq<char>, data: Seq<u8> },
    /// A hard link made from a header.
    HardLink { header: HeaderView, link: Seq<char>, target: Seq<char> },
}

impl EmissionView {
    /// The path that is written.
    pub open spec fn path(self) -> Seq<char> {
        match self {
            EmissionView::Entry { path, .. } => path,
            EmissionView::HardLink { link, .. } => link,
        }
    }
}

/// The bytes of an emission, or `None` where its path cannot be written.
pub open spec fn emission_bytes(e: EmissionView) -> Option<Seq<u8>> {
    match e {
        EmissionView::Entry { header, path, data } => entry_bytes(header, path, data),
        EmissionView::HardLink { header, link, target } => Some(
            hardlink_bytes(header, link, target),
        ),
    }
}

/// The bytes of emissions one after the other.
pub open spec fn log_bytes(log: Seq<EmissionView>) -> Seq<u8>
    decreases log.len(),
{
    if log.len() == 0 {
        Seq::empty()
    } else {
        match emission_bytes(log.last()) {
            Some(b) => log_bytes(log.drop_last()) + b,
            None => log_bytes(log.drop_last()),
        }
    }
}

/// Whether every emission can be written.
pub open spec fn all_written(log: Seq<EmissionView>) -> bool {
    forall|i: int| 0 <= i < log.len() ==> emission_bytes(#[trigger] log[i]) is Some
}

// ── Reading back ────────────────────────────────────────────────────────────

/// Whether an emission comes back when the archive is read.
pub open spec fn emission_readable(e: EmissionView) -> bool {
    match e {
        EmissionView::Entry { header, path, data } => entry_readable(header, path, data),
        EmissionView::HardLink { link, target, .. } => hardlink_readable(link, target),
    }
}

/// Whether all emissions come back when the archive is read.
pub open spec fn all_readable(log: Seq<EmissionView>) -> bool {
    forall|i: int| 0 <= i < log.len() ==> emission_readable(#[trigger] log[i])
}

/// Whether the entry `seen` is what the emission wrote.
pub open spec fn shows(seen: EntryView, e: EmissionView) -> bool {
    match e {
        EmissionView::Entry { header, path, data } => shows_entry(seen, header, path, data),
        EmissionView::HardLink { header, link, target } => seen == hardlink_seen(
            header,
            link,
            target,
        ),
    }
}

/// Whether the entries `seen` are what the emissions wrote, one for one.
pub open spec fn shows_all(seen: Seq<EntryView>, log: Seq<EmissionView>) -> bool {
    &&& seen.len() == log.len()
    &&& forall|i: int| 0 <= i < log.len() ==> shows(#[trigger] seen[i], log[i])
}

/// Whether the bytes of the emissions are read as what was written, if all of
/// them can be.
pub open spec fn comes_back(log: Seq<EmissionView>) -> bool {
    all_readable(log) ==> exists|seen: Seq<EntryView>|
        #[trigger] reads(log_bytes(log), seen) && shows_all(seen, log)
}

/// Whether the entries of an archive are what the emissions wrote, if all of
/// them can be read.
pub open spec fn reads_back(archive: Seq<u8>, log: Seq<EmissionView>) -> bool {
    all_readable(log) ==> exists|seen: Seq<EntryView>|
        archive_entries(archive) == (ArchiveView { entries: seen, complete: true })
            && #[trigger] shows_all(seen, log)
}

// ── Layers ──────────────────────────────────────────────────────────────────

/// A merge under way: what is known and what has been written.
#[verifier::ext_equal]
pub struct Run {
    pub state: MergeView,
    pub log: Seq<EmissionView>,
}

/// The merge after one entry more.
pub open spec fn step(run: Run, e: EntryView, layer: nat) -> Result<Run, MergeFault> {
    match admission(run.state, e, layer) {
        Err(f) => Err(f),
        Ok((state, AdmissionView::Skip)) => Ok(Run { state, ..run }),
        Ok((state, AdmissionView::Buffer { path, header })) => Ok(
            Run { state: with_buffered(state, path, header, e.data), ..run },
        ),
        Ok((state, AdmissionView::Emit { path, header })) => {
            let emission = EmissionView::Entry { header, path, data: e.data };
            if emission_bytes(emission) is Some {
                Ok(Run { state, log: run.log.push(emission) })
            } else {
                Err(MergeFault::Write)
            }
        },
    }
}

/// The merge after a sequence of entries of one layer.
pub open spec fn steps(run: Run, entries: Seq<EntryView>, layer: nat) -> Result<Run, MergeFault>
    decreases entries.len(),
{
    if entries.len() == 0 {
        Ok(run)
    } else {
        match steps(run, entries.drop_last(), layer) {
            Err(f) => Err(f),
            Ok(before) => step(before, entries.last(), layer),
        }
    }
}

/// The merge at the end of a layer: files buffered in it are dropped.
pub open spec fn layer_closed(run: Run) -> Run {
    Run {
        state: MergeView {
            links: HardLinks { buffered: Map::empty(), ..run.state.links },
            ..run.state
        },
        ..run
    }
}

/// The values of a layer.
#[verifier::ext_equal]
pub struct LayerView {
    pub media_type: Seq<char>,
    pub index: nat,
    pub bytes: Seq<u8>,
}

/// The entries of a layer, as far as they can be read.
pub open spec fn layer_entries(layer: LayerView) -> Seq<EntryView> {
    match compression_of(layer.media_type) {
        None => Seq::empty(),
        Some(c) => {
            let archive = decoded(layer.bytes, c).bytes;
            if oversized(archive) {
                Seq::empty()
            } else {
                archive_entries(archive).entries
            }
        },
    }
}

/// Whether an archive ends in its own bytes, rather than where they do: it is
/// read to its end also with a part of a block behind it.
pub open spec fn ends_within(archive: Seq<u8>) -> bool {
    &&& archive_entries(archive).complete
    &&& !oversized(archive.push(1u8)) && archive_entries(archive.push(1u8)).complete
}

/// Why a layer cannot be read to its end. Damage behind the end of the archive
/// does not matter. Of an oversized archive nothing is read.
pub open spec fn layer_fault(layer: LayerView) -> Option<MergeFault> {
    match compression_of(layer.media_type) {
        None => Some(MergeFault::UnsupportedMediaType),
        Some(c) => {
            let content = decoded(layer.bytes, c);
            if oversized(content.bytes) {
                Some(MergeFault::Archive)
            } else if content.complete {
                if archive_entries(content.bytes).complete {
                    None
                } else {
                    Some(MergeFault::Archive)
                }
            } else if ends_within(content.bytes) {
                None
            } else {
                Some(MergeFault::Decode)
            }
        },
    }
}

/// The merge after one layer more. What can be read of a layer is merged before
/// the rest fails.
pub open spec fn layer_merged(run: Run, layer: LayerView) -> Result<Run, MergeFault> {
    match steps(run, layer_entries(layer), layer.index) {
        Err(f) => Err(f),
        Ok(after) => match layer_fault(layer) {
            Some(f) => Err(f),
            None => Ok(layer_closed(after)),
        },
    }
}

/// The merge after layers, in the given order.
pub open spec fn layers_merged(run: Run, layers: Seq<LayerView>) -> Result<Run, MergeFault>
    decreases layers.len(),
{
    if layers.len() == 0 {
        Ok(run)
    } else {
        match layers_merged(run, layers.drop_last()) {
            Err(f) => Err(f),
            Ok(before) => layer_merged(before, layers.last()),
        }
    }
}

/// A merge that has not begun.
pub open spec fn fresh_run() -> Run {
    Run { state: nothing_merged(), log: Seq::empty() }
}

// ── Deferred links ──────────────────────────────────────────────────────────

/// The targets `keys`, in order and without repetition, with `t` put in.
pub open spec fn insert_target(keys: Seq<Seq<char>>, t: Seq<char>) -> Seq<Seq<char>>
    decreases keys.len(),
{
    if keys.len() == 0 {
        seq![t]
    } else if same_path(keys[0], t) {
        keys
    } else if path_less(t, keys[0]) {
        seq![t] + keys
    } else {
        seq![keys[0]] + insert_target(keys.drop_first(), t)
    }
}

/// The targets of promotions, in the order of paths and each once.
pub open spec fn promotion_targets(p: Seq<PromotionView>) -> Seq<Seq<char>>
    decreases p.len(),
{
    if p.len() == 0 {
        Seq::empty()
    } else {
        insert_target(promotion_targets(p.drop_last()), p.last().target)
    }
}

/// The promotions of the given target, in order.
pub open spec fn group_of(p: Seq<PromotionView>, target: Seq<char>) -> Seq<PromotionView>
    decreases p.len(),
{
    if p.len() == 0 {
        Seq::empty()
    } else if path_key(p.last().target) == path_key(target) {
        group_of(p.drop_last(), target).push(p.last())
    } else {
        group_of(p.drop_last(), target)
    }
}

/// What has been written and which paths those are.
#[verifier::ext_equal]
pub struct Output {
    pub emitted: Set<Seq<char>>,
    pub log: Seq<EmissionView>,
}

/// `o` with one emission more.
pub open spec fn emit(o: Output, e: EmissionView) -> Output {
    Output { emitted: o.emitted.insert(path_key(e.path())), log: o.log.push(e) }
}

/// Whether a promotion can be written as a file.
pub open spec fn can_lead(p: PromotionView, emitted: Set<Seq<char>>) -> bool {
    p.file is Some && !emitted.contains(path_key(p.link))
}

/// The position of the first promotion that can be written as a file, or the
/// length of the group.
pub open spec fn leader_of(group: Seq<PromotionView>, emitted: Set<Seq<char>>) -> int
    decreases group.len(),
{
    if group.len() == 0 || can_lead(group[0], emitted) {
        0
    } else {
        1 + leader_of(group.drop_first(), emitted)
    }
}

/// `o` with hard links to `leader` for those members of the group that are not
/// written yet.
pub open spec fn followers_emitted(
    o: Output,
    group: Seq<PromotionView>,
    leader: PromotionView,
) -> Output
    recommends
        leader.file is Some,
    decreases group.len(),
{
    if group.len() == 0 {
        o
    } else {
        let before = followers_emitted(o, group.drop_last(), leader);
        let p = group.last();
        if before.emitted.contains(path_key(p.link)) {
            before
        } else {
            emit(
                before,
                EmissionView::HardLink {
                    header: match p.file {
                        Some(f) => f.0,
                        None => leader.file->Some_0.0,
                    },
                    link: p.link,
                    target: leader.link,
                },
            )
        }
    }
}

/// `o` with a group of promotions: the first that can be is written as a
/// regular file, and the others as hard links to it.
pub open spec fn group_emitted(o: Output, group: Seq<PromotionView>) -> Output {
    let i = leader_of(group, o.emitted);
    if i >= group.len() {
        o
    } else {
        let leader = group[i];
        let file = leader.file->Some_0;
        let led = emit(
            o,
            EmissionView::Entry { header: as_regular(file.0), path: leader.link, data: file.1 },
        );
        followers_emitted(led, group, leader)
    }
}

/// `o` with the groups of the given targets.
pub open spec fn groups_emitted(
    o: Output,
    promotions: Seq<PromotionView>,
    targets: Seq<Seq<char>>,
) -> Output
    decreases targets.len(),
{
    if targets.len() == 0 {
        o
    } else {
        group_emitted(
            groups_emitted(o, promotions, targets.drop_last()),
            group_of(promotions, targets.last()),
        )
    }
}

/// `o` with those of the deferred links that are not written yet and whose
/// target has been.
pub open spec fn links_emitted(o: Output, links: Seq<LinkView>) -> Output
    decreases links.len(),
{
    if links.len() == 0 {
        o
    } else {
        let before = links_emitted(o, links.drop_last());
        let l = links.last();
        if before.emitted.contains(path_key(l.target)) && !before.emitted.contains(
            path_key(l.link),
        ) {
            emit(
                before,
                EmissionView::Entry { header: l.header, path: l.link, data: Seq::empty() },
            )
        } else {
            before
        }
    }
}

/// `o` with the deferred links after at most `rounds` rounds: another one follows
/// as long as the last has written something, since a link may point to one that
/// comes later.
pub open spec fn links_settled(o: Output, links: Seq<LinkView>, rounds: nat) -> Output
    decreases rounds,
{
    let next = links_emitted(o, links);
    if rounds == 0 || next.log.len() == o.log.len() {
        o
    } else {
        links_settled(next, links, (rounds - 1) as nat)
    }
}

/// What is written after all layers: promotions first, so that a deferred link
/// may point to a promoted file.
pub open spec fn deferred_output(st: MergeView) -> Output {
    let promotions = promotions_by_layer(st.links.promotions);
    let o = Output { emitted: st.emitted, log: Seq::empty() };
    links_settled(
        groups_emitted(o, promotions, promotion_targets(promotions)),
        links_by_layer(st.links.deferred),
        st.links.deferred.len(),
    )
}

/// The archive that a merge ends with, once all layers are done.
pub open spec fn finished(run: Run) -> Result<Seq<u8>, MergeFault> {
    let rest = deferred_output(run.state).log;
    if all_written(rest) {
        Ok(log_bytes(run.log + rest) + zeros(1024))
    } else {
        Err(MergeFault::Write)
    }
}

/// The archive that layers in the given order are merged into.
pub open spec fn merged_archive(order: Seq<LayerView>) -> Result<Seq<u8>, MergeFault> {
    match layers_merged(fresh_run(), order) {
        Err(f) => Err(f),
        Ok(run) => finished(run),
    }
}

/// All that is written when layers are merged in the given order.
pub open spec fn merged_log(order: Seq<LayerView>) -> Seq<EmissionView> {
    match layers_merged(fresh_run(), order) {
        Err(_) => Seq::empty(),
        Ok(run) => run.log + deferred_output(run.state).log,
    }
}

/// Layers by descending index; those with the same index stay in their order.
pub open spec fn newest_first(layers: Seq<LayerView>) -> Seq<LayerView> {
    sorted_by(layers, |l: LayerView| -(l.index as int))
}

// ── Arriving layers ─────────────────────────────────────────────────────────

/// Something that arrives: a layer, or why one could not be had.
pub enum ArrivalView {
    Layer(LayerView),
    Failed(Seq<char>),
}

/// How many layers arrive before the first failure, of at most `total`.
pub open spec fn good_arrivals(arrivals: Seq<ArrivalView>, total: nat) -> nat
    decreases total,
{
    if total == 0 || arrivals.len() == 0 || arrivals[0] is Failed {
        0
    } else {
        1 + good_arrivals(arrivals.drop_first(), (total - 1) as nat)
    }
}

/// The first `n` layers that arrive, with their indices.
pub open spec fn arrived_layers(arrivals: Seq<ArrivalView>, n: nat) -> Seq<(usize, LayerView)> {
    Seq::new(
        n,
        |i: int| (arrivals[i]->Layer_0.index as usize, arrivals[i]->Layer_0),
    )
}

/// The order in which arriving layers are merged.
pub open spec fn arrival_order(arrivals: Seq<ArrivalView>, total: nat) -> Seq<LayerView> {
    released_after(arrived_layers(arrivals, good_arrivals(arrivals, total)), total)
}

/// The archive that `total` arriving layers are merged into. A layer that was
/// merged before a failure arrived is what fails first.
pub open spec fn merged_arrivals(arrivals: Seq<ArrivalView>, total: nat) -> Result<
    Seq<u8>,
    MergeFault,
> {
    let n = good_arrivals(arrivals, total);
    match layers_merged(fresh_run(), arrival_order(arrivals, total)) {
        Err(f) => Err(f),
        Ok(run) => if n == total {
            finished(run)
        } else if n < arrivals.len() {
            Err(MergeFault::Download(arrivals[n as int]->Failed_0))
        } else {
            Err(MergeFault::Closed { received: n, total })
        },
    }
}

/// The progress events of merging layers in the given order: a start and a
/// finish for each, up to a layer that fails, which only starts.
pub open spec fn progress_log(order: Seq<LayerView>) -> Seq<PackerProgress>
    decreases order.len(),
{
    if order.len() == 0 {
        Seq::empty()
    } else {
        let before = progress_log(order.drop_last());
        let i = order.last().index as usize;
        if layers_merged(fresh_run(), order.drop_last()) is Err {
            before
        } else if layers_merged(fresh_run(), order) is Err {
            before.push(PackerProgress::LayerStarted(i))
        } else {
            before.push(PackerProgress::LayerStarted(i)).push(PackerProgress::LayerFinished(i))
        }
    }
}

// ── Lemmas for the executable merge ─────────────────────────────────────────

/// The bytes of two logs are the bytes of the logs together.
pub proof fn lemma_log_bytes_add(a: Seq<EmissionView>, b: Seq<EmissionView>)
    ensures
        log_bytes(a + b) == log_bytes(a) + log_bytes(b),
    decreases b.len(),
{
    if b.len() == 0 {
        assert(a + b =~= a);
        assert(log_bytes(a) + log_bytes(b) =~= log_bytes(a));
    } else {
        lemma_log_bytes_add(a, b.drop_last());
        assert((a + b).drop_last() =~= a + b.drop_last());
        assert((a + b).last() == b.last());
        match emission_bytes(b.last()) {
            Some(x) => {
                assert(log_bytes(a) + log_bytes(b.drop_last()) + x =~= log_bytes(a) + (log_bytes(
                    b.drop_last(),
                ) + x));
            },
            None => {},
        }
    }
}

/// Nothing written is read as nothing.
pub proof fn lemma_nothing_comes_back()
    ensures
        comes_back(Seq::empty()),
{
    let none = Seq::<EntryView>::empty();
    assert forall|rest: Seq<u8>|
        archive_entries(rest).complete implies #[trigger] archive_entries(
        Seq::<u8>::empty() + rest,
    ) == after_entries(none, archive_entries(rest)) by {
        assert(Seq::<u8>::empty() + rest =~= rest);
        assert(after_entries(none, archive_entries(rest)) =~= archive_entries(rest));
    }
    assert(log_bytes(Seq::empty()) =~= Seq::empty());
    assert(reads(log_bytes(Seq::empty()), none));
    assert(shows_all(none, Seq::empty()));
}

/// An emission whose bytes are read as what was written comes back.
pub proof fn lemma_one_comes_back(e: EmissionView)
    requires
        emission_bytes(e) is Some,
        emission_readable(e) ==> exists|seen: EntryView|
            #[trigger] reads(emission_bytes(e)->Some_0, seq![seen]) && shows(seen, e),
    ensures
        comes_back(seq![e]),
{
    let log = seq![e];
    let b = emission_bytes(e)->Some_0;
    if all_readable(log) {
        assert(emission_readable(log[0]));
        let seen = choose|seen: EntryView| #[trigger] reads(b, seq![seen]) && shows(seen, e);
        assert(log.drop_last() =~= Seq::empty());
        assert(log_bytes(log.drop_last()) =~= Seq::empty());
        assert(log_bytes(log) =~= b);
        assert(reads(log_bytes(log), seq![seen]));
        assert(shows_all(seq![seen], log));
    }
}

/// What is written in two parts is read as both.
pub proof fn lemma_comes_back_add(a: Seq<EmissionView>, b: Seq<EmissionView>)
    requires
        comes_back(a),
        comes_back(b),
    ensures
        comes_back(a + b),
{
    if all_readable(a + b) {
        assert(all_readable(a)) by {
            assert forall|i: int| 0 <= i < a.len() implies emission_readable(#[trigger] a[i]) by {
                assert((a + b)[i] == a[i]);
            }
        }
        assert(all_readable(b)) by {
            assert forall|i: int| 0 <= i < b.len() implies emission_readable(#[trigger] b[i]) by {
                assert((a + b)[a.len() + i] == b[i]);
            }
        }
        let x = choose|seen: Seq<EntryView>|
            #[trigger] reads(log_bytes(a), seen) && shows_all(seen, a);
        let y = choose|seen: Seq<EntryView>|
            #[trigger] reads(log_bytes(b), seen) && shows_all(seen, b);
        lemma_log_bytes_add(a, b);
        assert forall|rest: Seq<u8>|
            archive_entries(rest).complete implies #[trigger] archive_entries(
            log_bytes(a + b) + rest,
        ) == after_entries(x + y, archive_entries(rest)) by {
            let tail = log_bytes(b) + rest;
            assert(archive_entries(tail) == after_entries(y, archive_entries(rest)));
            assert(archive_entries(log_bytes(a) + tail) == after_entries(
                x,
                archive_entries(tail),
            ));
            assert(log_bytes(a + b) + rest =~= log_bytes(a) + tail);
            assert(after_entries(x, after_entries(y, archive_entries(rest))) =~= after_entries(
                x + y,
                archive_entries(rest),
            ));
        }
        assert(reads(log_bytes(a + b), x + y));
        assert(shows_all(x + y, a + b));
    }
}

/// An archive of emissions that come back has them as its entries.
pub proof fn lemma_reads_back(log: Seq<EmissionView>)
    requires
        comes_back(log),
        archive_entries(zeros(1024)) == no_entries(),
    ensures
        reads_back(log_bytes(log) + zeros(1024), log),
{
    if all_readable(log) {
        let seen = choose|seen: Seq<EntryView>|
            #[trigger] reads(log_bytes(log), seen) && shows_all(seen, log);
        assert(archive_entries(log_bytes(log) + zeros(1024)) == after_entries(seen, no_entries()));
        assert(after_entries(seen, no_entries()) =~= ArchiveView { entries: seen, complete: true });
        assert(shows_all(seen, log));
    }
}

/// `log` put before what `r` has written.
pub open spec fn after_log(log: Seq<EmissionView>, r: Result<Run, MergeFault>) -> Result<
    Run,
    MergeFault,
> {
    match r {
        Ok(run) => Ok(Run { state: run.state, log: log + run.log }),
        Err(f) => Err(f),
    }
}

/// What has been written before does not change what an entry leads to.
pub proof fn lemma_step_log(run: Run, e: EntryView, layer: nat)
    ensures
        step(run, e, layer) == after_log(
            run.log,
            step(Run { state: run.state, log: Seq::empty() }, e, layer),
        ),
{
    let bare = Run { state: run.state, log: Seq::empty() };
    match step(bare, e, layer) {
        Ok(end) => {
            assert(step(run, e, layer)->Ok_0.log =~= run.log + end.log);
        },
        Err(_) => {},
    }
}

/// What has been written before does not change what entries lead to.
pub proof fn lemma_steps_log(run: Run, entries: Seq<EntryView>, layer: nat)
    ensures
        steps(run, entries, layer) == after_log(
            run.log,
            steps(Run { state: run.state, log: Seq::empty() }, entries, layer),
        ),
    decreases entries.len(),
{
    let bare = Run { state: run.state, log: Seq::empty() };
    if entries.len() == 0 {
        assert(run.log + Seq::<EmissionView>::empty() =~= run.log);
    } else {
        lemma_steps_log(run, entries.drop_last(), layer);
        match steps(bare, entries.drop_last(), layer) {
            Ok(mid) => {
                let full = Run { state: mid.state, log: run.log + mid.log };
                match step(mid, entries.last(), layer) {
                    Ok(end) => {
                        assert(step(full, entries.last(), layer)->Ok_0.log =~= run.log + end.log);
                    },
                    Err(_) => {},
                }
            },
            Err(_) => {},
        }
    }
}

/// What has been written before does not change what a layer leads to.
pub proof fn lemma_layer_log(run: Run, layer: LayerView)
    ensures
        layer_merged(run, layer) == after_log(
            run.log,
            layer_merged(Run { state: run.state, log: Seq::empty() }, layer),
        ),
{
    lemma_steps_log(run, layer_entries(layer), layer.index);
}

/// Once entries have failed, the rest of them does not matter.
pub proof fn lemma_steps_fault(run: Run, entries: Seq<EntryView>, layer: nat, n: int)
    requires
        0 <= n <= entries.len(),
        steps(run, entries.take(n), layer) is Err,
    ensures
        steps(run, entries, layer) == steps(run, entries.take(n), layer),
    decreases entries.len() - n,
{
    if n < entries.len() {
        assert(entries.take(n + 1).drop_last() =~= entries.take(n));
        lemma_steps_fault(run, entries, layer, n + 1);
    } else {
        assert(entries.take(n) =~= entries);
    }
}

/// Once layers have failed, the rest of them does not matter.
pub proof fn lemma_layers_fault(order: Seq<LayerView>, n: int)
    requires
        0 <= n <= order.len(),
        layers_merged(fresh_run(), order.take(n)) is Err,
    ensures
        layers_merged(fresh_run(), order) == layers_merged(fresh_run(), order.take(n)),
        progress_log(order) == progress_log(order.take(n)),
    decreases order.len() - n,
{
    if n < order.len() {
        assert(order.take(n + 1).drop_last() =~= order.take(n));
        lemma_layers_fault(order, n + 1);
    } else {
        assert(order.take(n) =~= order);
    }
}

/// The number of good arrivals is where the first failure is, or the end.
pub proof fn lemma_good_arrivals(arrivals: Seq<ArrivalView>, total: nat, n: nat)
    requires
        n <= total,
        n <= arrivals.len(),
        forall|i: int| 0 <= i < n ==> (#[trigger] arrivals[i]) is Layer,
    ensures
        good_arrivals(arrivals, total) >= n,
        n == total || n == arrivals.len() || arrivals[n as int] is Failed ==> good_arrivals(
            arrivals,
            total,
        ) == n,
    decreases total,
{
    if n > 0 {
        assert(arrivals[0] is Layer);
        lemma_good_arrivals(arrivals.drop_first(), (total - 1) as nat, (n - 1) as nat);
    }
}

/// Good arrivals are no more than there are, and all of them layers.
pub proof fn lemma_good_arrivals_bound(arrivals: Seq<ArrivalView>, total: nat)
    ensures
        good_arrivals(arrivals, total) <= arrivals.len(),
        good_arrivals(arrivals, total) <= total,
        forall|i: int|
            0 <= i < good_arrivals(arrivals, total) ==> (#[trigger] arrivals[i]) is Layer,
    decreases total,
{
    if total > 0 && arrivals.len() > 0 && arrivals[0] is Layer {
        lemma_good_arrivals_bound(arrivals.drop_first(), (total - 1) as nat);
        assert forall|i: int| 0 <= i < good_arrivals(arrivals, total) implies (
        #[trigger] arrivals[i]) is Layer by {
            if i > 0 {
                assert(arrivals.drop_first()[i - 1] is Layer);
            }
        }
    }
}

/// A round that writes nothing changes nothing.
pub proof fn lemma_idle_round(o: Output, links: Seq<LinkView>)
    ensures
        links_emitted(o, links).log.len() >= o.log.len(),
        links_emitted(o, links).log.len() == o.log.len() ==> links_emitted(o, links) == o,
    decreases links.len(),
{
    if links.len() > 0 {
        lemma_idle_round(o, links.drop_last());
    }
}

/// The leader of a group, if there is one, can be written as a file.
pub proof fn lemma_leader_leads(group: Seq<PromotionView>, emitted: Set<Seq<char>>)
    ensures
        0 <= leader_of(group, emitted) <= group.len(),
        leader_of(group, emitted) < group.len() ==> can_lead(
            group[leader_of(group, emitted)],
            emitted,
        ),
    decreases group.len(),
{
    if group.len() > 0 && !can_lead(group[0], emitted) {
        lemma_leader_leads(group.drop_first(), emitted);
    }
}

} // verus!
