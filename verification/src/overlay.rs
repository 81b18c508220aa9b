//! The layer merge.
//!
//! [`LayerMerger`] judges entries one at a time and keeps the state between
//! them; whoever has the content at hand writes or buffers it as told.
//! [`merge_layers_into`] and [`merge_layers_into_streaming`] merge layers that
//! are in memory: the first takes them all at once, the second as they arrive.
//!
//! Layers are processed newest first. The first version of a path claims it,
//! later ones are skipped. Hard links are deferred until all layers are done;
//! where the target was removed by a newer layer, surviving hard links are
//! promoted to regular files.

use crate::archive::{
    archive_end, archive_entries, entry_views, is_oversized, no_entries, oversized, read_archive,
    reads, zeros, EntryView, TarEntry,
};
use crate::canonical::{
    hardlink_seen, shows_entry, CanonicalTarHeader, EntryType, HeaderError,
};
use crate::layers::{open_layer, LayerContent, LayerError};
use crate::model::{
    admission, admitted, all_written, arrival_order, arrived_layers, can_lead, clean_path,
    comes_back, deferred_output, emission_bytes, emission_readable, ends_within, file_name,
    followers_emitted, fresh_run, good_arrivals, group_emitted, group_of, groups_emitted,
    insert_target, layer_entries, layer_merged, layers_merged, leader_of, lemma_comes_back_add,
    lemma_good_arrivals, lemma_good_arrivals_bound, lemma_idle_round, lemma_layer_log,
    lemma_layers_fault, lemma_leader_leads, lemma_log_bytes_add, lemma_nothing_comes_back,
    lemma_one_comes_back, lemma_reads_back, lemma_step_log, lemma_steps_fault, links_emitted,
    links_settled, log_bytes, merged_archive, merged_arrivals, merged_log, naming, newest_first,
    nothing_merged, progress_log, promotion_targets, reads_back, shows, step, steps, with_buffered,
    AdmissionView, ArrivalView, EmissionView, LayerView, MergeFault, MergeView, Naming, Output,
    Run,
};
use crate::order::{law_sorted, lemma_sorted_map, sort_stable, Keyed};
use crate::packer::PackerProgress;
pub use crate::path::normalize_path;
use crate::path::{
    child_path, is_path_less, key_of, law_key_identifies_path, lemma_parts_valid, names,
    names_something, parts, path_key, path_less, path_parts, same_path, valid_parts,
};
use crate::resequence::{
    arrived, drained, lemma_mapped_after, lemma_released_grows, mapped_arrivals, released,
    released_after, waiting_after, Resequencer,
};
use crate::text::{copy_bytes, same_text, starts_with, text_lossy, texts};
use crate::tracker::{
    link_views, promotion_views, EmittedPathTracker, HardLinkEntry, HardLinkTracker, HardLinks,
    LinkView, Marks,
    PromotionEntry, WhiteoutTracker,
};
use vstd::prelude::*;
use vstd::string::*;

verus! {

/// Why a merge fails.
#[derive(Debug)]
pub enum MergeError {
    /// The header of an entry cannot be captured.
    Header(HeaderError),
    /// A hard link has no target.
    NoLinkTarget,
    /// A layer cannot be opened.
    Layer(LayerError),
    /// A layer is damaged before the end of its archive.
    Decode(std::io::Error),
    /// A layer is not a readable tar archive.
    Archive(std::io::Error),
    /// A layer may hold a sparse file whose size cannot be counted with.
    Oversized,
    /// An entry cannot be written.
    Write(std::io::Error),
    /// A layer could not be had, for the given reason.
    Download(String),
    /// No more layers came although not all had.
    Closed { received: usize, total: usize },
}

impl View for MergeError {
    type V = MergeFault;

    open spec fn view(&self) -> MergeFault {
        match self {
            MergeError::Header(f) => MergeFault::Header(*f),
            MergeError::NoLinkTarget => MergeFault::NoLinkTarget,
            MergeError::Layer(LayerError::UnsupportedMediaType) => MergeFault::UnsupportedMediaType,
            MergeError::Decode(_) => MergeFault::Decode,
            MergeError::Archive(_) | MergeError::Oversized => MergeFault::Archive,
            MergeError::Write(_) => MergeFault::Write,
            MergeError::Download(reason) => MergeFault::Download(reason@),
            MergeError::Closed { received, total } => MergeFault::Closed {
                received: *received as nat,
                total: *total as nat,
            },
        }
    }
}

/// What becomes of an entry.
pub enum Admission {
    /// Nothing is to be written.
    Skip,
    /// The content is to be handed to [`LayerMerger::buffer`].
    Buffer { path: String, canonical: CanonicalTarHeader },
    /// The entry is to be written at `path`.
    Emit { path: String, canonical: CanonicalTarHeader },
}

impl View for Admission {
    type V = AdmissionView;

    open spec fn view(&self) -> AdmissionView {
        match self {
            Admission::Skip => AdmissionView::Skip,
            Admission::Buffer { path, canonical } => AdmissionView::Buffer {
                path: path@,
                header: canonical@,
            },
            Admission::Emit { path, canonical } => AdmissionView::Emit {
                path: path@,
                header: canonical@,
            },
        }
    }
}

/// What the name of an entry says.
enum EntryNaming {
    Root,
    Opaque(String),
    Simple(String),
    Content,
}

/// What the normalised path of an entry says.
fn naming_of(path: &str) -> (r: EntryNaming)
    ensures
        match r {
            EntryNaming::Root => naming(path@) == Naming::Root,
            EntryNaming::Opaque(p) => naming(path@) == Naming::Whiteout(names(p@)),
            EntryNaming::Simple(p) => naming(path@) == Naming::Whiteout(names(p@)),
            EntryNaming::Content => naming(path@) == Naming::Content,
        },
{
    let mut comps = path_parts(path);
    proof {
        reveal_strlit(".");
        assert("."@ =~= seq!['.']);
        reveal_strlit(".wh.");
        reveal_strlit("");
        reveal_strlit(".wh..wh..opq");
        lemma_parts_valid(path@);
        if comps.len() == 1 {
            assert(texts(comps@)[0] == comps@[0]@);
            if comps@[0]@ == seq!['.'] {
                assert(parts(path@) =~= seq![seq!['.']]);
            }
        }
        assert(parts(path@).len() == comps.len());
        assert(parts(path@) == seq![seq!['.']] ==> parts(path@)[0] == seq!['.']);
    }
    let empty = path.unicode_len() == 0;
    if empty || (comps.len() == 1 && same_text(comps[0].as_str(), ".")) {
        return EntryNaming::Root;
    }
    if comps.len() == 0 {
        proof {
            assert(file_name(path@) =~= Seq::empty());
            assert(".wh..wh..opq"@.len() > 0);
            assert(".wh."@.len() == 4);
        }
        return EntryNaming::Content;
    }
    let ghost all = texts(comps@);
    let name = comps.pop().unwrap();
    proof {
        assert(all.last() == name@);
        assert(texts(comps@) =~= all.drop_last());
        assert(valid_parts(texts(comps@))) by {
            assert forall|i: int| 0 <= i < texts(comps@).len() implies (#[trigger] texts(
                comps@,
            )[i]).len() > 0 && !texts(comps@)[i].contains('/') && (i > 0 ==> texts(comps@)[i]
                != seq!['.']) by {
                assert(texts(comps@)[i] == all[i]);
            }
        }
        assert(!all[all.len() - 1].contains('/'));
    }
    if !names_something(name.as_str()) {
        proof {
            assert(file_name(path@) =~= Seq::empty());
        }
        return EntryNaming::Content;
    }
    assert(file_name(path@) == name@);
    if same_text(name.as_str(), ".wh..wh..opq") {
        let dir = child_path(&comps, "");
        return EntryNaming::Opaque(dir);
    }
    if starts_with(name.as_str(), ".wh.") {
        assert(name@.len() >= 4);
        let rest = name.as_str().substring_char(4, name.as_str().unicode_len());
        proof {
            assert(rest@ =~= name@.skip(4));
            assert(!rest@.contains('/')) by {
                if rest@.contains('/') {
                    let i = choose|i: int| 0 <= i < rest@.len() && rest@[i] == '/';
                    assert(name@[i + 4] == '/');
                }
            }
        }
        return EntryNaming::Simple(child_path(&comps, rest));
    }
    EntryNaming::Content
}

/// The state of a merge between entries.
pub struct LayerMerger {
    whiteout: WhiteoutTracker,
    claimed: EmittedPathTracker,
    emitted: EmittedPathTracker,
    hardlinks: HardLinkTracker,
}

impl View for LayerMerger {
    type V = MergeView;

    closed spec fn view(&self) -> MergeView {
        MergeView {
            marks: self.whiteout@,
            claimed: self.claimed@,
            emitted: self.emitted@,
            links: self.hardlinks@,
        }
    }
}

impl LayerMerger {
    /// Whether the state is consistent.
    pub closed spec fn wf(&self) -> bool {
        self.whiteout.wf()
    }

    /// The state before the first layer.
    pub fn new() -> (r: Self)
        ensures
            r.wf(),
            r@ == nothing_merged(),
    {
        LayerMerger {
            whiteout: WhiteoutTracker::new(),
            claimed: EmittedPathTracker::new(),
            emitted: EmittedPathTracker::new(),
            hardlinks: HardLinkTracker::new(),
        }
    }

    /// Judge an entry of layer `layer_index`, whose content does not matter.
    ///
    /// Whiteouts and hard links are recorded. An entry that is to be written
    /// counts as written from here on.
    pub fn judge(&mut self, entry: &TarEntry, layer_index: usize) -> (r: Result<
        Admission,
        MergeError,
    >)
        requires
            old(self).wf(),
        ensures
            final(self).wf(),
            match r {
                Ok(a) => admission(old(self)@, entry@, layer_index as nat) == Ok::<
                    (MergeView, AdmissionView),
                    MergeFault,
                >((final(self)@, a@)),
                Err(e) => admission(old(self)@, entry@, layer_index as nat) == Err::<
                    (MergeView, AdmissionView),
                    MergeFault,
                >(e@) && final(self)@ == old(self)@,
            },
    {
        let raw = text_lossy(entry.path.as_slice());
        let path = normalize_path(raw.as_str());
        assert(path@ == clean_path(entry@.path));
        match naming_of(path.as_str()) {
            EntryNaming::Root => {
                return Ok(Admission::Skip);
            },
            EntryNaming::Opaque(dir) => {
                self.whiteout.insert_opaque(dir.as_str(), layer_index);
                return Ok(Admission::Skip);
            },
            EntryNaming::Simple(gone) => {
                self.whiteout.insert_simple(gone.as_str(), layer_index);
                return Ok(Admission::Skip);
            },
            EntryNaming::Content => {},
        }
        if self.whiteout.is_suppressed(path.as_str(), layer_index) {
            let kind = EntryType::new(entry.header[156]);
            if kind == EntryType::Regular || kind == EntryType::Continuous {
                return match CanonicalTarHeader::from_entry(entry) {
                    Ok(canonical) => Ok(Admission::Buffer { path, canonical }),
                    Err(e) => Err(MergeError::Header(e)),
                };
            }
            return Ok(Admission::Skip);
        }
        if self.claimed.contains(path.as_str()) {
            return Ok(Admission::Skip);
        }
        match CanonicalTarHeader::from_entry(entry) {
            Ok(canonical) => self.judge_fresh(path, canonical, layer_index),
            Err(e) => Err(MergeError::Header(e)),
        }
    }

    /// Record an entry that is neither suppressed nor a duplicate.
    fn judge_fresh(
        &mut self,
        path: String,
        canonical: CanonicalTarHeader,
        layer_index: usize,
    ) -> (r: Result<Admission, MergeError>)
        requires
            old(self).wf(),
        ensures
            final(self).wf(),
            match r {
                Ok(a) => admitted(old(self)@, path@, canonical@, layer_index as nat) == Ok::<
                    (MergeView, AdmissionView),
                    MergeFault,
                >((final(self)@, a@)),
                Err(e) => admitted(old(self)@, path@, canonical@, layer_index as nat) == Err::<
                    (MergeView, AdmissionView),
                    MergeFault,
                >(e@) && final(self)@ == old(self)@,
            },
    {
        let kind = canonical.entry_type();
        if kind == EntryType::Link {
            match canonical.link_name() {
                None => Err(MergeError::NoLinkTarget),
                Some(raw) => {
                    let target = normalize_path(text_lossy(raw.as_slice()).as_str());
                    let gone = self.whiteout.is_suppressed(target.as_str(), layer_index);
                    self.whiteout.insert_shadow(path.as_str(), layer_index);
                    self.claimed.insert(path.as_str());
                    if gone {
                        self.hardlinks.record_promotion(path, target, layer_index);
                    } else {
                        self.hardlinks.record(path, target, layer_index, canonical);
                    }
                    Ok(Admission::Skip)
                },
            }
        } else {
            if kind != EntryType::Directory {
                self.whiteout.insert_shadow(path.as_str(), layer_index);
            }
            self.claimed.insert(path.as_str());
            self.emitted.insert(path.as_str());
            Ok(Admission::Emit { path, canonical })
        }
    }

    /// Take the content of a suppressed file, for hard links that need it.
    pub fn buffer(&mut self, path: String, canonical: CanonicalTarHeader, data: Vec<u8>)
        requires
            old(self).wf(),
        ensures
            final(self).wf(),
            final(self)@ == with_buffered(old(self)@, path@, canonical@, data@),
    {
        self.hardlinks.note_suppressed_file(path, canonical, data);
    }

    /// Finish a layer.
    pub fn end_layer(&mut self)
        requires
            old(self).wf(),
        ensures
            final(self).wf(),
            final(self)@ == (MergeView {
                links: HardLinks {
                    buffered: Map::empty(),
                    ..old(self)@.links
                },
                ..old(self)@
            }),
    {
        self.hardlinks.end_layer();
    }
}

// ── Output ──────────────────────────────────────────────────────────────────

/// Something that is to be written.
pub enum Emission {
    /// An entry with its content.
    Entry { canonical: CanonicalTarHeader, path: String, data: Vec<u8> },
    /// A hard link with the metadata of a header.
    HardLink { canonical: CanonicalTarHeader, link_path: String, target_path: String },
}

impl View for Emission {
    type V = EmissionView;

    open spec fn view(&self) -> EmissionView {
        match self {
            Emission::Entry { canonical, path, data } => EmissionView::Entry {
                header: canonical@,
                path: path@,
                data: data@,
            },
            Emission::HardLink { canonical, link_path, target_path } => EmissionView::HardLink {
                header: canonical@,
                link: link_path@,
                target: target_path@,
            },
        }
    }
}

/// The values of emissions.
pub open spec fn emission_views(v: Seq<Emission>) -> Seq<EmissionView> {
    Seq::new(v.len(), |i: int| v[i]@)
}

impl Emission {
    /// Write the emission behind `out`. Nothing is written where its path is
    /// refused.
    pub fn write(&self, out: &mut Vec<u8>) -> (r: Result<(), MergeError>)
        ensures
            match r {
                Ok(_) => emission_bytes(self@) matches Some(b) && final(out)@ == old(out)@ + b,
                Err(e) => emission_bytes(self@) is None && e@ == MergeFault::Write && final(out)@
                    == old(out)@,
            },
            r is Ok ==> comes_back(seq![self@]),
    {
        let outcome = match self {
            Emission::Entry { canonical, path, data } => canonical.write_to_tar(
                path.as_str(),
                data.as_slice(),
                out,
            ),
            Emission::HardLink { canonical, link_path, target_path } =>
            canonical.write_hardlink_to_tar(link_path.as_str(), target_path.as_str(), out),
        };
        match outcome {
            Ok(_) => {
                proof {
                    if emission_readable(self@) {
                        let b = emission_bytes(self@)->Some_0;
                        match self@ {
                            EmissionView::Entry { header, path, data } => {
                                let seen = choose|seen: EntryView|
                                    #[trigger] reads(b, seq![seen]) && shows_entry(
                                        seen,
                                        header,
                                        path,
                                        data,
                                    );
                                assert(reads(b, seq![seen]) && shows(seen, self@));
                            },
                            EmissionView::HardLink { header, link, target } => {
                                let seen = hardlink_seen(header, link, target);
                                assert(reads(b, seq![seen]) && shows(seen, self@));
                            },
                        }
                    }
                    lemma_one_comes_back(self@);
                }
                Ok(())
            },
            Err(e) => Err(MergeError::Write(e)),
        }
    }
}

/// Put the target `t` into `targets`, which are in the order of paths and
/// without repetition.
fn put_target(targets: &mut Vec<String>, t: &String)
    ensures
        texts(final(targets)@) == insert_target(texts(old(targets)@), t@),
{
    let ghost all = texts(targets@);
    let mut i: usize = 0;
    proof {
        assert(all.skip(0) =~= all);
        assert(all.take(0) + insert_target(all.skip(0), t@) =~= insert_target(all, t@));
    }
    while i < targets.len()
        invariant
            i <= targets.len(),
            targets@ == old(targets)@,
            all == texts(old(targets)@),
            all.take(i as int) + insert_target(all.skip(i as int), t@) == insert_target(all, t@),
        ensures
            i < targets.len() ==> !same_path(all[i as int], t@) && path_less(t@, all[i as int]),
        decreases targets.len() - i,
    {
        let ghost rest = all.skip(i as int);
        assert(rest[0] == targets@[i as int]@);
        let known = targets[i].as_str();
        let same = same_text(key_of(known).as_str(), key_of(t.as_str()).as_str());
        proof {
            law_key_identifies_path(known@, t@);
        }
        if same {
            assert(all.take(i as int) + rest =~= all);
            return;
        }
        if is_path_less(t.as_str(), known) {
            break;
        }
        proof {
            assert(rest.drop_first() =~= all.skip(i + 1));
            assert(all.take(i as int) + (seq![rest[0]] + insert_target(all.skip(i + 1), t@))
                =~= all.take(i + 1) + insert_target(all.skip(i + 1), t@));
        }
        i = i + 1;
    }
    targets.insert(i, t.clone());
    assert(texts(targets@) =~= all.take(i as int) + (seq![t@] + all.skip(i as int)));
    proof {
        let rest = all.skip(i as int);
        if rest.len() > 0 {
            assert(rest[0] == all[i as int]);
        }
        assert(insert_target(rest, t@) =~= seq![t@] + rest);
    }
}

/// The targets of promotions, in the order of paths and each once.
fn targets_of(promotions: &Vec<PromotionEntry>) -> (r: Vec<String>)
    ensures
        texts(r@) == promotion_targets(promotion_views(promotions@)),
{
    let ghost all = promotion_views(promotions@);
    let mut r: Vec<String> = Vec::new();
    assert(all.take(0) =~= Seq::empty());
    assert(texts(r@) =~= Seq::empty());
    for i in 0..promotions.len()
        invariant
            all == promotion_views(promotions@),
            texts(r@) == promotion_targets(all.take(i as int)),
    {
        assert(all.take(i + 1).drop_last() =~= all.take(i as int));
        put_target(&mut r, &promotions[i].target_path);
    }
    assert(all.take(all.len() as int) =~= all);
    r
}

/// The positions of the promotions of the given target.
fn members_of(promotions: &Vec<PromotionEntry>, target: &String) -> (r: Vec<usize>)
    ensures
        forall|j: int| 0 <= j < r@.len() ==> (#[trigger] r@[j]) < promotions@.len(),
        Seq::new(r@.len(), |j: int| promotions@[r@[j] as int]@) == group_of(
            promotion_views(promotions@),
            target@,
        ),
{
    let ghost all = promotion_views(promotions@);
    let key = key_of(target.as_str());
    let mut r: Vec<usize> = Vec::new();
    assert(all.take(0) =~= Seq::empty());
    assert(Seq::new(r@.len(), |j: int| promotions@[r@[j] as int]@) =~= Seq::empty());
    for i in 0..promotions.len()
        invariant
            key@ == path_key(target@),
            all == promotion_views(promotions@),
            forall|j: int| 0 <= j < r@.len() ==> (#[trigger] r@[j]) < promotions@.len(),
            Seq::new(r@.len(), |j: int| promotions@[r@[j] as int]@) == group_of(
                all.take(i as int),
                target@,
            ),
    {
        let ghost before = Seq::new(r@.len(), |j: int| promotions@[r@[j] as int]@);
        assert(all.take(i + 1).drop_last() =~= all.take(i as int));
        if same_text(key_of(promotions[i].target_path.as_str()).as_str(), key.as_str()) {
            r.push(i);
            assert(Seq::new(r@.len(), |j: int| promotions@[r@[j] as int]@) =~= before.push(
                promotions@[i as int]@,
            ));
        }
    }
    assert(all.take(all.len() as int) =~= all);
    r
}

/// Write a group of promotions.
fn emit_group(
    promotions: &Vec<PromotionEntry>,
    members: &Vec<usize>,
    emitted: &mut EmittedPathTracker,
    log: &mut Vec<Emission>,
)
    requires
        forall|j: int| 0 <= j < members@.len() ==> (#[trigger] members@[j]) < promotions@.len(),
    ensures
        group_emitted(
            (Output { emitted: old(emitted)@, log: emission_views(old(log)@) }),
            Seq::new(members@.len(), |j: int| promotions@[members@[j] as int]@),
        ) == (Output { emitted: final(emitted)@, log: emission_views(final(log)@) }),
{
    let ghost group = Seq::new(members@.len(), |j: int| promotions@[members@[j] as int]@);
    let mut p: usize = 0;
    assert(group.skip(0) =~= group);
    while p < members.len()
        invariant_except_break
            forall|j: int| 0 <= j < members@.len() ==> (#[trigger] members@[j]) < promotions@.len(),
            group == Seq::new(members@.len(), |j: int| promotions@[members@[j] as int]@),
            p <= members.len(),
            leader_of(group, emitted@) == p + leader_of(group.skip(p as int), emitted@),
        ensures
            p <= members.len(),
            leader_of(group, emitted@) == p,
        decreases members.len() - p,
    {
        let promo = &promotions[members[p]];
        assert(group.skip(p as int)[0] == promo@);
        if promo.file_data.is_some() && !emitted.contains(promo.link_path.as_str()) {
            assert(leader_of(group.skip(p as int), emitted@) == 0);
            break;
        }
        assert(group.skip(p as int).drop_first() =~= group.skip(p + 1));
        p = p + 1;
    }
    if p >= members.len() {
        return;
    }
    let leader = &promotions[members[p]];
    assert(group[p as int] == leader@);
    let ghost o = Output { emitted: old(emitted)@, log: emission_views(old(log)@) };
    assert(can_lead(group[p as int], o.emitted)) by {
        lemma_leader_leads(group, o.emitted);
    }
    if let Some(file) = leader.file_data.as_ref() {
        let ghost before = emission_views(log@);
        let emission = Emission::Entry {
            canonical: file.0.clone_as_regular(),
            path: leader.link_path.clone(),
            data: copy_bytes(file.1.as_slice()),
        };
        let ghost e = emission@;
        log.push(emission);
        assert(emission_views(log@) =~= before.push(e));
        emitted.insert(leader.link_path.as_str());
        let ghost led = Output { emitted: emitted@, log: emission_views(log@) };
        assert(group.take(0) =~= Seq::empty());
        for i in 0..members.len()
            invariant
                forall|j: int|
                    0 <= j < members@.len() ==> (#[trigger] members@[j]) < promotions@.len(),
                group == Seq::new(members@.len(), |j: int| promotions@[members@[j] as int]@),
                leader.file_data == Some(*file),
                followers_emitted(led, group.take(i as int), leader@) == (Output {
                    emitted: emitted@,
                    log: emission_views(log@),
                }),
        {
            assert(group.take(i + 1).drop_last() =~= group.take(i as int));
            let promo = &promotions[members[i]];
            assert(group.take(i + 1).last() == promo@);
            if !emitted.contains(promo.link_path.as_str()) {
                let base = match promo.file_data.as_ref() {
                    Some(own) => own.0.clone(),
                    None => file.0.clone(),
                };
                let ghost before = emission_views(log@);
                let emission = Emission::HardLink {
                    canonical: base,
                    link_path: promo.link_path.clone(),
                    target_path: leader.link_path.clone(),
                };
                let ghost e = emission@;
                log.push(emission);
                assert(emission_views(log@) =~= before.push(e));
                emitted.insert(promo.link_path.as_str());
            }
        }
        assert(group.take(group.len() as int) =~= group);
    }
}

/// Write those of the deferred links that are not written yet and whose target
/// has been.
fn emit_links(
    deferred: &Vec<HardLinkEntry>,
    emitted: &mut EmittedPathTracker,
    log: &mut Vec<Emission>,
)
    ensures
        links_emitted(
            (Output { emitted: old(emitted)@, log: emission_views(old(log)@) }),
            link_views(deferred@),
        ) == (Output { emitted: final(emitted)@, log: emission_views(final(log)@) }),
{
    let ghost o = Output { emitted: emitted@, log: emission_views(log@) };
    let ghost links = link_views(deferred@);
    assert(links.take(0) =~= Seq::empty());
    for i in 0..deferred.len()
        invariant
            links == link_views(deferred@),
            links_emitted(o, links.take(i as int)) == (Output {
                emitted: emitted@,
                log: emission_views(log@),
            }),
    {
        assert(links.take(i + 1).drop_last() =~= links.take(i as int));
        let hl = &deferred[i];
        assert(links.take(i + 1).last() == hl@);
        if emitted.contains(hl.target_path.as_str()) && !emitted.contains(hl.link_path.as_str()) {
            let ghost before = emission_views(log@);
            let emission = Emission::Entry {
                canonical: hl.canonical.clone(),
                path: hl.link_path.clone(),
                data: Vec::new(),
            };
            let ghost e = emission@;
            assert(e->Entry_data =~= Seq::empty());
            log.push(emission);
            assert(emission_views(log@) =~= before.push(e));
            emitted.insert(hl.link_path.as_str());
        }
    }
    assert(links.take(links.len() as int) =~= links);
}

/// What is written after all layers: promotions grouped by their target, then
/// the deferred hard links whose target has been written, in rounds as long as
/// there are any.
fn emit_deferred(hardlinks: HardLinkTracker, emitted: EmittedPathTracker) -> (r: Vec<Emission>)
    ensures
        emission_views(r@) == deferred_output(
            (MergeView {
                marks: Marks { whiteouts: Map::empty(), shadows: Map::empty() },
                claimed: Set::empty(),
                emitted: emitted@,
                links: hardlinks@,
            }),
        ).log,
{
    let mut emitted = emitted;
    let (deferred, promotions) = hardlinks.drain_sorted();
    let mut log: Vec<Emission> = Vec::new();
    let ghost o = Output { emitted: emitted@, log: Seq::empty() };
    let ghost sorted = promotion_views(promotions@);
    assert(emission_views(log@) =~= Seq::empty());

    let targets = targets_of(&promotions);
    assert(texts(targets@).take(0) =~= Seq::empty());
    for i in 0..targets.len()
        invariant
            sorted == promotion_views(promotions@),
            groups_emitted(o, sorted, texts(targets@).take(i as int)) == (Output {
                emitted: emitted@,
                log: emission_views(log@),
            }),
    {
        assert(texts(targets@).take(i + 1).drop_last() =~= texts(targets@).take(i as int));
        let members = members_of(&promotions, &targets[i]);
        emit_group(&promotions, &members, &mut emitted, &mut log);
    }
    assert(texts(targets@).take(targets.len() as int) =~= texts(targets@));

    let ghost links = link_views(deferred@);
    let rounds: usize = deferred.len();
    proof {
        law_sorted(hardlinks@.deferred, |l: LinkView| l.layer as int);
    }
    let ghost grouped = Output { emitted: emitted@, log: emission_views(log@) };
    let mut left: usize = rounds;
    while left > 0
        invariant_except_break
            links == link_views(deferred@),
            left <= rounds,
            links_settled(grouped, links, rounds as nat) == links_settled(
                (Output { emitted: emitted@, log: emission_views(log@) }),
                links,
                left as nat,
            ),
        ensures
            links_settled(grouped, links, rounds as nat).log == emission_views(log@),
        decreases left,
    {
        let ghost before = Output { emitted: emitted@, log: emission_views(log@) };
        let written: usize = log.len();
        emit_links(&deferred, &mut emitted, &mut log);
        if log.len() == written {
            proof {
                lemma_idle_round(before, links);
            }
            break;
        }
        left = left - 1;
    }
    log
}

// ── Layers in memory ────────────────────────────────────────────────────────

/// A layer in memory.
pub struct Layer {
    /// The media type, which selects the decompressor.
    pub media_type: String,
    /// The position in the manifest; the newest layer has the highest.
    pub index: usize,
    /// The blob.
    pub bytes: Vec<u8>,
}

impl View for Layer {
    type V = LayerView;

    open spec fn view(&self) -> LayerView {
        LayerView { media_type: self.media_type@, index: self.index as nat, bytes: self.bytes@ }
    }
}

impl Keyed for Layer {
    open spec fn sort_key(self) -> int {
        -(self.index as int)
    }

    fn before(&self, other: &Self) -> (r: bool) {
        self.index > other.index
    }
}

/// The values of layers.
pub open spec fn layer_views(v: Seq<Layer>) -> Seq<LayerView> {
    v.map_values(|l: Layer| l@)
}

/// Whether a layer was read to its end, given what it yielded and how reading
/// that went.
fn check_end(content: LayerContent, outcome: Result<(), std::io::Error>) -> (r: Result<
    (),
    MergeError,
>)
    requires
        !oversized(content@.bytes),
        outcome is Ok <==> archive_entries(content@.bytes).complete,
    ensures
        match r {
            Ok(_) => if content@.complete {
                archive_entries(content@.bytes).complete
            } else {
                ends_within(content@.bytes)
            },
            Err(e) => if content@.complete {
                !archive_entries(content@.bytes).complete && e@ == MergeFault::Archive
            } else {
                !ends_within(content@.bytes) && e@ == MergeFault::Decode
            },
        },
{
    let damage = match content.damage {
        None => {
            return match outcome {
                Ok(_) => Ok(()),
                Err(e) => Err(MergeError::Archive(e)),
            };
        },
        Some(damage) => damage,
    };
    if outcome.is_err() {
        return Err(MergeError::Decode(damage));
    }
    let ghost bytes = content.bytes@;
    let mut longer = content.bytes;
    longer.push(1);
    assert(longer@ =~= bytes.push(1u8));
    if is_oversized(longer.as_slice()) {
        return Err(MergeError::Decode(damage));
    }
    let mut entries: Vec<TarEntry> = Vec::new();
    match read_archive(longer.as_slice(), &mut entries) {
        Ok(_) => Ok(()),
        Err(_) => Err(MergeError::Decode(damage)),
    }
}

impl LayerMerger {
    /// Merge one entry, writing behind `out`.
    fn merge_entry(&mut self, entry: TarEntry, layer_index: usize, out: &mut Vec<u8>) -> (r: Result<
        (),
        MergeError,
    >)
        requires
            old(self).wf(),
        ensures
            final(self).wf(),
            match r {
                Ok(_) => step(
                    (Run { state: old(self)@, log: Seq::empty() }),
                    entry@,
                    layer_index as nat,
                ) matches Ok(run) && final(self)@ == run.state && final(out)@ == old(out)@
                    + log_bytes(run.log) && comes_back(run.log),
                Err(e) => step(
                    (Run { state: old(self)@, log: Seq::empty() }),
                    entry@,
                    layer_index as nat,
                ) == Err::<Run, MergeFault>(e@),
            },
    {
        let ghost e = entry@;
        proof {
            lemma_nothing_comes_back();
        }
        match self.judge(&entry, layer_index) {
            Err(e) => Err(e),
            Ok(Admission::Skip) => {
                assert(out@ + log_bytes(Seq::empty()) =~= out@);
                Ok(())
            },
            Ok(Admission::Buffer { path, canonical }) => {
                assert(out@ + log_bytes(Seq::empty()) =~= out@);
                self.buffer(path, canonical, entry.data);
                Ok(())
            },
            Ok(Admission::Emit { path, canonical }) => {
                let emission = Emission::Entry { canonical, path, data: entry.data };
                let ghost before = out@;
                match emission.write(out) {
                    Ok(_) => {
                        proof {
                            let log = Seq::empty().push(emission@);
                            assert(log =~= seq![emission@]);
                            assert(log.drop_last() =~= Seq::empty());
                            assert(log_bytes(log.drop_last()) =~= Seq::empty());
                            let b = emission_bytes(emission@)->Some_0;
                            assert(before + log_bytes(log) =~= before + b);
                        }
                        Ok(())
                    },
                    Err(e) => Err(e),
                }
            },
        }
    }

    /// Process a layer: record whiteouts, defer hard links, and write all other
    /// entries that are neither suppressed nor duplicates behind `out`.
    #[verifier::rlimit(40)]
    pub fn process_layer(&mut self, layer: &Layer, out: &mut Vec<u8>) -> (r: Result<(), MergeError>)
        requires
            old(self).wf(),
        ensures
            final(self).wf(),
            match r {
                Ok(_) => layer_merged(
                    (Run { state: old(self)@, log: Seq::empty() }),
                    layer@,
                ) matches Ok(run) && final(self)@ == run.state && final(out)@ == old(out)@
                    + log_bytes(run.log) && comes_back(run.log),
                Err(e) => layer_merged(
                    (Run { state: old(self)@, log: Seq::empty() }),
                    layer@,
                ) == Err::<Run, MergeFault>(e@),
            },
    {
        let content = match open_layer(layer.bytes.as_slice(), layer.media_type.as_str()) {
            Ok(content) => content,
            Err(e) => return Err(MergeError::Layer(e)),
        };
        if is_oversized(content.bytes.as_slice()) {
            return Err(MergeError::Oversized);
        }
        let mut entries: Vec<TarEntry> = Vec::new();
        let outcome = read_archive(content.bytes.as_slice(), &mut entries);
        let ghost all = entry_views(entries@);
        assert(all =~= layer_entries(layer@));
        let ghost start = Run { state: self@, log: Seq::empty() };
        let ghost mut run = start;
        let index: usize = layer.index;
        proof {
            assert(all.take(0) =~= Seq::empty());
            assert(out@ + log_bytes(Seq::empty()) =~= out@);
            lemma_nothing_comes_back();
        }
        for entry in it: entries
            invariant
                it.seq() == entries@,
                all == entry_views(entries@),
                layer_entries(layer@) == all,
                start == (Run { state: old(self)@, log: Seq::empty() }),
                index == layer.index,
                self.wf(),
                steps(start, all.take(it.index() as int), index as nat) == Ok::<Run, MergeFault>(
                    run,
                ),
                run.state == self@,
                out@ == old(out)@ + log_bytes(run.log),
                comes_back(run.log),
        {
            let ghost i = it.index() as int;
            proof {
                assert(all.take(i + 1).drop_last() =~= all.take(i));
                assert(all.take(i + 1).last() == entry@);
            }
            let ghost st = self@;
            proof {
                lemma_step_log(run, entry@, index as nat);
            }
            match self.merge_entry(entry, index, out) {
                Ok(_) => {
                    proof {
                        let delta = step(
                            Run { state: st, log: Seq::empty() },
                            entry@,
                            index as nat,
                        )->Ok_0;
                        lemma_log_bytes_add(run.log, delta.log);
                        lemma_comes_back_add(run.log, delta.log);
                        assert(old(out)@ + log_bytes(run.log) + log_bytes(delta.log) =~= old(
                            out,
                        )@ + (log_bytes(run.log) + log_bytes(delta.log)));
                        run = Run { state: delta.state, log: run.log + delta.log };
                    }
                },
                Err(e) => {
                    proof {
                        lemma_steps_fault(start, all, index as nat, i + 1);
                    }
                    return Err(e);
                },
            }
        }
        assert(all.take(all.len() as int) =~= all);
        if let Err(e) = check_end(content, outcome) {
            return Err(e);
        }
        self.end_layer();
        Ok(())
    }

    /// What is still to be written after all layers.
    pub fn finish(self) -> (r: Vec<Emission>)
        requires
            self.wf(),
        ensures
            emission_views(r@) == deferred_output(self@).log,
    {
        emit_deferred(self.hardlinks, self.emitted)
    }

    /// Write what is still to be written, and the end of the archive, behind
    /// `out`.
    fn finish_into(self, out: &mut Vec<u8>) -> (r: Result<(), MergeError>)
        requires
            self.wf(),
        ensures
            match r {
                Ok(_) => all_written(deferred_output(self@).log) && final(out)@ == old(out)@
                    + log_bytes(deferred_output(self@).log) + zeros(1024) && comes_back(
                    deferred_output(self@).log,
                ) && archive_entries(zeros(1024)) == no_entries(),
                Err(e) => !all_written(deferred_output(self@).log) && e@ == MergeFault::Write,
            },
    {
        let rest = self.finish();
        let ghost all = emission_views(rest@);
        let ghost before = out@;
        assert(all.take(0) =~= Seq::empty());
        assert(before + log_bytes(all.take(0)) =~= before);
        proof {
            lemma_nothing_comes_back();
        }
        for i in 0..rest.len()
            invariant
                all == emission_views(rest@),
                all == deferred_output(self@).log,
                out@ == before + log_bytes(all.take(i as int)),
                comes_back(all.take(i as int)),
                forall|j: int| 0 <= j < i ==> emission_bytes(#[trigger] all[j]) is Some,
        {
            assert(all.take(i + 1).drop_last() =~= all.take(i as int));
            assert(all.take(i + 1).last() == rest@[i as int]@);
            match rest[i].write(out) {
                Ok(_) => {
                    proof {
                        let b = emission_bytes(all[i as int])->Some_0;
                        assert(before + log_bytes(all.take(i as int)) + b =~= before + (log_bytes(
                            all.take(i as int),
                        ) + b));
                        lemma_comes_back_add(all.take(i as int), seq![all[i as int]]);
                        assert(all.take(i as int) + seq![all[i as int]] =~= all.take(i + 1));
                    }
                },
                Err(e) => {
                    assert(emission_bytes(all[i as int]) is None);
                    return Err(e);
                },
            }
        }
        assert(all.take(all.len() as int) =~= all);
        match archive_trailer() {
            Ok(end) => {
                let ghost body = out@;
                out.extend_from_slice(end.as_slice());
                assert(out@ =~= body + zeros(1024));
                Ok(())
            },
            Err(e) => Err(e),
        }
    }
}

/// The end of an archive, behind its last entry.
pub fn archive_trailer() -> (r: Result<Vec<u8>, MergeError>)
    ensures
        r is Ok && r->Ok_0@ == zeros(1024),
        archive_entries(zeros(1024)) == no_entries(),
{
    match archive_end() {
        Ok(end) => Ok(end),
        Err(e) => Err(MergeError::Write(e)),
    }
}

/// Merge `layers` into a single tar archive.
///
/// The layers may come in any order; they are merged by descending index.
pub fn merge_layers_into(layers: Vec<Layer>) -> (r: Result<Vec<u8>, MergeError>)
    ensures
        match r {
            Ok(archive) => merged_archive(newest_first(layer_views(layers@))) == Ok::<
                Seq<u8>,
                MergeFault,
            >(archive@) && reads_back(archive@, merged_log(newest_first(layer_views(layers@)))),
            Err(e) => merged_archive(newest_first(layer_views(layers@))) == Err::<
                Seq<u8>,
                MergeFault,
            >(e@),
        },
{
    proof {
        lemma_sorted_map(
            layers@,
            |l: Layer| l@,
            |l: Layer| l.sort_key(),
            |l: LayerView| -(l.index as int),
        );
    }
    let ghost order = newest_first(layer_views(layers@));
    let sorted = sort_stable(layers);
    assert(layer_views(sorted@) == order);
    let mut merger = LayerMerger::new();
    let mut out: Vec<u8> = Vec::new();
    let ghost mut run = fresh_run();
    assert(order.take(0) =~= Seq::empty());
    assert(out@ =~= log_bytes(run.log));
    proof {
        lemma_nothing_comes_back();
    }
    for i in 0..sorted.len()
        invariant
            layer_views(sorted@) == order,
            order == newest_first(layer_views(layers@)),
            merger.wf(),
            layers_merged(fresh_run(), order.take(i as int)) == Ok::<Run, MergeFault>(run),
            run.state == merger@,
            out@ == log_bytes(run.log),
            comes_back(run.log),
    {
        proof {
            assert(order.take(i + 1).drop_last() =~= order.take(i as int));
            assert(order.take(i + 1).last() == sorted@[i as int]@);
            lemma_layer_log(run, sorted@[i as int]@);
        }
        let ghost st = merger@;
        match merger.process_layer(&sorted[i], &mut out) {
            Ok(_) => {
                proof {
                    let delta = layer_merged(
                        Run { state: st, log: Seq::empty() },
                        sorted@[i as int]@,
                    )->Ok_0;
                    lemma_log_bytes_add(run.log, delta.log);
                    lemma_comes_back_add(run.log, delta.log);
                    run = Run { state: delta.state, log: run.log + delta.log };
                }
            },
            Err(e) => {
                proof {
                    lemma_layers_fault(order, i + 1);
                }
                return Err(e);
            },
        }
    }
    assert(order.take(order.len() as int) =~= order);
    proof {
        lemma_log_bytes_add(run.log, deferred_output(run.state).log);
    }
    match merger.finish_into(&mut out) {
        Ok(_) => {
            proof {
                lemma_comes_back_add(run.log, deferred_output(run.state).log);
                lemma_reads_back(run.log + deferred_output(run.state).log);
            }
            Ok(out)
        },
        Err(e) => Err(e),
    }
}

// ── Arriving layers ─────────────────────────────────────────────────────────

/// Something that arrives: a layer, or why one could not be had.
pub enum Arrival {
    Layer(Layer),
    Failed(String),
}

impl View for Arrival {
    type V = ArrivalView;

    open spec fn view(&self) -> ArrivalView {
        match self {
            Arrival::Layer(layer) => ArrivalView::Layer(layer@),
            Arrival::Failed(reason) => ArrivalView::Failed(reason@),
        }
    }
}

/// The values of arrivals.
pub open spec fn arrival_views(v: Seq<Arrival>) -> Seq<ArrivalView> {
    Seq::new(v.len(), |i: int| v[i]@)
}

/// Merge a layer between its progress events.
fn merge_reported(
    merger: &mut LayerMerger,
    layer: &Layer,
    out: &mut Vec<u8>,
    progress: &mut Vec<PackerProgress>,
    Ghost(order): Ghost<Seq<LayerView>>,
    Ghost(run): Ghost<Run>,
    Ghost(base): Ghost<Seq<PackerProgress>>,
) -> (r: Result<(), MergeError>)
    requires
        old(merger).wf(),
        layers_merged(fresh_run(), order) == Ok::<Run, MergeFault>(run),
        run.state == old(merger)@,
        old(out)@ == log_bytes(run.log),
        comes_back(run.log),
        old(progress)@ == base + progress_log(order),
    ensures
        final(merger).wf(),
        final(progress)@ == base + progress_log(order.push(layer@)),
        match r {
            Ok(_) => layers_merged(fresh_run(), order.push(layer@)) matches Ok(after)
                && after.state == final(merger)@ && final(out)@ == log_bytes(after.log)
                && comes_back(after.log),
            Err(e) => layers_merged(fresh_run(), order.push(layer@)) == Err::<Run, MergeFault>(
                e@,
            ),
        },
{
    let ghost st = merger@;
    let ghost all = order.push(layer@);
    proof {
        assert(all.drop_last() =~= order);
        lemma_layer_log(run, layer@);
    }
    progress.push(PackerProgress::LayerStarted(layer.index));
    match merger.process_layer(layer, out) {
        Ok(_) => {
            progress.push(PackerProgress::LayerFinished(layer.index));
            proof {
                let delta = layer_merged(Run { state: st, log: Seq::empty() }, layer@)->Ok_0;
                lemma_log_bytes_add(run.log, delta.log);
                lemma_comes_back_add(run.log, delta.log);
                assert(progress@ =~= base + progress_log(all));
            }
            Ok(())
        },
        Err(e) => {
            assert(progress@ =~= base + progress_log(all));
            Err(e)
        },
    }
}

/// Merge every layer whose turn has come.
#[verifier::rlimit(40)]
fn merge_ready(
    merger: &mut LayerMerger,
    queue: &mut Resequencer<Layer>,
    out: &mut Vec<u8>,
    progress: &mut Vec<PackerProgress>,
    Ghost(order): Ghost<Seq<LayerView>>,
    Ghost(run): Ghost<Run>,
    Ghost(base): Ghost<Seq<PackerProgress>>,
) -> (r: Result<(), MergeError>)
    requires
        old(merger).wf(),
        layers_merged(fresh_run(), order) == Ok::<Run, MergeFault>(run),
        run.state == old(merger)@,
        old(out)@ == log_bytes(run.log),
        comes_back(run.log),
        old(progress)@ == base + progress_log(order),
    ensures
        final(merger).wf(),
        final(progress)@ == base + progress_log(order + layer_views(released(old(queue)@))),
        match r {
            Ok(_) => {
                &&& layers_merged(
                    fresh_run(),
                    order + layer_views(released(old(queue)@)),
                ) matches Ok(after) && after.state == final(merger)@ && final(out)@ == log_bytes(
                    after.log,
                ) && comes_back(after.log)
                &&& final(queue)@ == drained(old(queue)@)
            },
            Err(e) => layers_merged(
                fresh_run(),
                order + layer_views(released(old(queue)@)),
            ) == Err::<Run, MergeFault>(e@),
        },
{
    let ghost w = queue@;
    let ghost mut done: Seq<Layer> = Seq::empty();
    let ghost mut run = run;
    proof {
        assert(done + released(queue@) =~= released(w));
        assert(order + layer_views(done) =~= order);
    }
    loop
        invariant
            w == old(queue)@,
            merger.wf(),
            done + released(queue@) == released(w),
            drained(queue@) == drained(w),
            layers_merged(fresh_run(), order + layer_views(done)) == Ok::<Run, MergeFault>(run),
            run.state == merger@,
            out@ == log_bytes(run.log),
            comes_back(run.log),
            progress@ == base + progress_log(order + layer_views(done)),
        ensures
            released(w) == done,
            queue@ == drained(w),
        decreases
                queue@.next,
                (if queue@.items.contains_key(0usize) {
                    1int
                } else {
                    0int
                }),
    {
        let ghost q = queue@;
        match queue.pop() {
            None => {
                assert(done + released(q) =~= done);
                break;
            },
            Some(ready) => {
                let ghost so_far = order + layer_views(done);
                let ghost next = done.push(ready);
                proof {
                    assert(released(q) =~= seq![ready] + released(queue@));
                    assert(done + released(q) =~= next + released(queue@));
                    assert(order + layer_views(next) =~= so_far.push(ready@));
                }
                match merge_reported(
                    merger,
                    &ready,
                    out,
                    progress,
                    Ghost(so_far),
                    Ghost(run),
                    Ghost(base),
                ) {
                    Ok(_) => {
                        proof {
                            run = layers_merged(fresh_run(), so_far.push(ready@))->Ok_0;
                            done = next;
                        }
                    },
                    Err(e) => {
                        proof {
                            let all = order + layer_views(released(w));
                            let n: int = so_far.len() + 1int;
                            assert(all.take(n) =~= so_far.push(ready@)) by {
                                assert(released(w) =~= next + released(queue@));
                            }
                            lemma_layers_fault(all, n);
                        }
                        return Err(e);
                    },
                }
            },
        }
    }
    Ok(())
}

/// Layers that have arrived, as values.
spec fn arrived_views(got: Seq<(usize, Layer)>) -> Seq<(usize, LayerView)> {
    mapped_arrivals(got, |l: Layer| l@)
}

/// The layers that have been handed on after arrivals, as values.
spec fn handed_on_views(got: Seq<(usize, Layer)>, total: nat) -> Seq<LayerView> {
    layer_views(released_after(got, total))
}

/// Whether `got` are the first `n` arrivals, all of them layers.
spec fn taken(all: Seq<ArrivalView>, total: nat, got: Seq<(usize, Layer)>, n: nat) -> bool {
    let good = good_arrivals(all, total);
    &&& n <= good
    &&& arrived_views(got) == arrived_layers(all, good).take(n as int)
}

proof fn lemma_taken_all(all: Seq<ArrivalView>, total: nat, got: Seq<(usize, Layer)>, n: nat)
    requires
        taken(all, total, got, n),
        n == good_arrivals(all, total),
    ensures
        handed_on_views(got, total) == arrival_order(all, total),
{
    let layers = arrived_layers(all, n);
    assert(layers.take(n as int) =~= layers);
    lemma_mapped_after(got, total, |l: Layer| l@);
}

proof fn lemma_taken_part(all: Seq<ArrivalView>, total: nat, got: Seq<(usize, Layer)>, n: nat)
    requires
        taken(all, total, got, n),
    ensures
        handed_on_views(got, total).len() <= arrival_order(all, total).len(),
        arrival_order(all, total).take(handed_on_views(got, total).len() as int)
            == handed_on_views(got, total),
{
    let layers = arrived_layers(all, good_arrivals(all, total));
    let part = handed_on_views(got, total);
    lemma_mapped_after(got, total, |l: Layer| l@);
    lemma_released_grows(layers, total, n as int);
    assert(arrival_order(all, total).take(part.len() as int) =~= part);
}

proof fn lemma_taken_next(
    all: Seq<ArrivalView>,
    total: nat,
    got: Seq<(usize, Layer)>,
    n: nat,
    layer: Layer,
)
    requires
        taken(all, total, got, n),
        n < total,
        n < all.len(),
        all[n as int] == ArrivalView::Layer(layer@),
    ensures
        taken(all, total, got.push((layer.index, layer)), n + 1),
        handed_on_views(got.push((layer.index, layer)), total) == handed_on_views(got, total)
            + layer_views(released(arrived(waiting_after(got, total), layer.index, layer))),
        waiting_after(got.push((layer.index, layer)), total) == drained(
            arrived(waiting_after(got, total), layer.index, layer),
        ),
{
    let good = good_arrivals(all, total);
    let layers = arrived_layers(all, good);
    let now = got.push((layer.index, layer));
    lemma_good_arrivals_bound(all, total);
    assert forall|i: int| 0 <= i < n + 1 implies (#[trigger] all[i]) is Layer by {}
    lemma_good_arrivals(all, total, n + 1);
    assert(arrived_views(now) =~= arrived_views(got).push((layer.index, layer@)));
    assert(layers.take(n + 1int) =~= layers.take(n as int).push(layers[n as int]));
    assert(now.drop_last() =~= got);
    assert(handed_on_views(now, total) =~= handed_on_views(got, total) + layer_views(
        released(arrived(waiting_after(got, total), layer.index, layer)),
    ));
}

/// Merge `total_layers` layers into a single tar archive, taking them in any
/// order of arrival.
///
/// A layer is merged as soon as it and all layers above it have arrived. A
/// failure that arrives aborts the merge, and so does the end of the arrivals
/// before all layers have come. The progress events go behind `progress`.
#[verifier::rlimit(40)]
pub fn merge_layers_into_streaming(
    arrivals: Vec<Arrival>,
    total_layers: usize,
    progress: &mut Vec<PackerProgress>,
) -> (r: Result<Vec<u8>, MergeError>)
    ensures
        match r {
            Ok(archive) => merged_arrivals(arrival_views(arrivals@), total_layers as nat) == Ok::<
                Seq<u8>,
                MergeFault,
            >(archive@) && reads_back(
                archive@,
                merged_log(arrival_order(arrival_views(arrivals@), total_layers as nat)),
            ),
            Err(e) => merged_arrivals(arrival_views(arrivals@), total_layers as nat) == Err::<
                Seq<u8>,
                MergeFault,
            >(e@),
        },
        final(progress)@ == old(progress)@ + progress_log(
            arrival_order(arrival_views(arrivals@), total_layers as nat),
        ),
{
    let ghost all = arrival_views(arrivals@);
    let ghost total = total_layers as nat;
    let ghost order = arrival_order(all, total);
    let ghost mut got: Seq<(usize, Layer)> = Seq::empty();
    let ghost mut run = fresh_run();

    let mut merger = LayerMerger::new();
    let mut out: Vec<u8> = Vec::new();
    let mut queue: Resequencer<Layer> = Resequencer::new(total_layers);
    let mut coming = arrivals;
    let mut received: usize = 0;
    proof {
        assert(all.skip(0) =~= all);
        assert(arrived_views(got) =~= arrived_layers(all, good_arrivals(all, total)).take(0));
        assert(out@ =~= log_bytes(run.log));
        lemma_nothing_comes_back();
        assert(handed_on_views(got, total) =~= Seq::empty());
        assert(progress@ + progress_log(Seq::empty()) =~= progress@);
    }
    while received < total_layers
        invariant
            received <= total_layers,
            total == total_layers,
            all == arrival_views(arrivals@),
            order == arrival_order(all, total),
            received <= all.len(),
            arrival_views(coming@) == all.skip(received as int),
            taken(all, total, got, received as nat),
            merger.wf(),
            queue@ == waiting_after(got, total),
            layers_merged(fresh_run(), handed_on_views(got, total)) == Ok::<Run, MergeFault>(run),
            run.state == merger@,
            out@ == log_bytes(run.log),
            comes_back(run.log),
            progress@ == old(progress)@ + progress_log(handed_on_views(got, total)),
        decreases total_layers - received,
    {
        let ghost rest = coming@;
        proof {
            lemma_good_arrivals_bound(all, total);
            lemma_good_arrivals(all, total, received as nat);
            assert(arrival_views(rest).len() == rest.len());
        }
        if coming.len() == 0 {
            proof {
                lemma_taken_all(all, total, got, received as nat);
            }
            return Err(MergeError::Closed { received, total: total_layers });
        }
        assert(arrival_views(rest)[0] == rest[0]@);
        assert(all[received as int] == rest[0]@);
        let layer = match coming.remove(0) {
            Arrival::Failed(reason) => {
                proof {
                    lemma_taken_all(all, total, got, received as nat);
                }
                return Err(MergeError::Download(reason));
            },
            Arrival::Layer(layer) => layer,
        };
        let ghost now = got.push((layer.index, layer));
        proof {
            lemma_taken_next(all, total, got, received as nat, layer);
            assert(arrival_views(coming@) =~= all.skip(received + 1)) by {
                assert forall|i: int| 0 <= i < coming@.len() implies coming@[i]@ == all[received
                    + 1 + i] by {
                    assert(coming@[i] == rest[i + 1]);
                    assert(arrival_views(rest)[i + 1] == all.skip(received as int)[i + 1]);
                }
            }
        }
        received = received + 1;
        queue.push(layer.index, layer);
        match merge_ready(
            &mut merger,
            &mut queue,
            &mut out,
            progress,
            Ghost(handed_on_views(got, total)),
            Ghost(run),
            Ghost(old(progress)@),
        ) {
            Ok(_) => {
                proof {
                    got = now;
                    run = layers_merged(fresh_run(), handed_on_views(got, total))->Ok_0;
                }
            },
            Err(e) => {
                proof {
                    lemma_taken_part(all, total, now, received as nat);
                    lemma_layers_fault(order, handed_on_views(now, total).len() as int);
                }
                return Err(e);
            },
        }
    }
    proof {
        lemma_good_arrivals_bound(all, total);
        lemma_taken_all(all, total, got, received as nat);
        lemma_log_bytes_add(run.log, deferred_output(run.state).log);
    }
    match merger.finish_into(&mut out) {
        Ok(_) => {
            proof {
                lemma_comes_back_add(run.log, deferred_output(run.state).log);
                lemma_reads_back(run.log + deferred_output(run.state).log);
            }
            Ok(out)
        },
        Err(e) => Err(e),
    }
}

} // verus!
