//! What holds of every merge.

use crate::archive::{heads_plain, pax_value, plain_records, EntryView};
use crate::canonical::{
    as_regular, captured, entry_type_of, link_name_of, type_of, EntryType, HeaderView,
};
use crate::model::{
    admission, arrival_order, arrived_layers, can_lead, clean_path, deferred_output,
    emission_readable, emit, followers_emitted, fresh_run, group_emitted, group_of, groups_emitted,
    insert_target, layer_entries, layers_merged, leader_of, lemma_good_arrivals, lemma_idle_round,
    lemma_leader_leads, links_emitted, links_settled, merged_archive, merged_arrivals, merged_log,
    naming, newest_first, progress_log, promotion_targets, step, steps, with_entry, with_whiteout,
    AdmissionView, ArrivalView, EmissionView, LayerView, MergeView, Naming, Output, Run,
};
use crate::order::{ascending, law_sorted, lemma_ascending_unique, sorted_by};
use crate::packer::PackerProgress;
use crate::path::{
    law_key_identifies_path, law_normalizing_keeps_names, law_path_order_total,
    law_path_order_transitive, names, path_key, path_less, same_path,
};
use crate::resequence::{
    arrived_as, distinct_arrivals, index_arrives, law_handed_on_from_the_highest_index_down,
    released_after,
};
use crate::text::lossy_text;
use crate::tracker::{
    links_by_layer, mark_newest, newer_at, promotions_by_layer, suppressed, LinkView, Marks,
    PromotionView,
};
use vstd::prelude::*;

verus! {

// ── Marks ───────────────────────────────────────────────────────────────────

proof fn lemma_mark_newest(
    m: Map<Seq<Seq<char>>, nat>,
    p: Seq<Seq<char>>,
    n: nat,
    q: Seq<Seq<char>>,
    layer: nat,
)
    ensures
        newer_at(mark_newest(m, p, n), q, layer) <==> newer_at(m, q, layer) || (p == q && n
            > layer),
{
}

/// A whiteout of layer `n` at `p` suppresses, beyond what was suppressed
/// before, exactly `p` and what is below it in layers older than `n`.
pub proof fn law_whiteout_suppresses(
    m: Marks,
    p: Seq<Seq<char>>,
    n: nat,
    q: Seq<Seq<char>>,
    layer: nat,
)
    ensures
        suppressed(with_whiteout(m, p, n), q, layer) <==> suppressed(m, q, layer) || (
        p.is_prefix_of(q) && n > layer),
{
    let after = with_whiteout(m, p, n);
    if suppressed(m, q, layer) {
        if exists|k: int| 0 <= k <= q.len() && #[trigger] newer_at(m.whiteouts, q.take(k), layer) {
            let k = choose|k: int|
                0 <= k <= q.len() && #[trigger] newer_at(m.whiteouts, q.take(k), layer);
            lemma_mark_newest(m.whiteouts, p, n, q.take(k), layer);
            assert(newer_at(after.whiteouts, q.take(k), layer));
        } else {
            let k = choose|k: int|
                0 <= k < q.len() && #[trigger] newer_at(m.shadows, q.take(k), layer);
            assert(newer_at(after.shadows, q.take(k), layer));
        }
    }
    if p.is_prefix_of(q) && n > layer {
        assert(q.take(p.len() as int) =~= p);
        lemma_mark_newest(m.whiteouts, p, n, p, layer);
        assert(newer_at(after.whiteouts, q.take(p.len() as int), layer));
    }
    if suppressed(after, q, layer) && !suppressed(m, q, layer) {
        assert(forall|k: int| 0 <= k < q.len() ==> !#[trigger] newer_at(
            m.shadows,
            q.take(k),
            layer,
        ));
        let k = choose|k: int|
            0 <= k <= q.len() && #[trigger] newer_at(after.whiteouts, q.take(k), layer);
        lemma_mark_newest(m.whiteouts, p, n, q.take(k), layer);
        assert(!newer_at(m.whiteouts, q.take(k), layer));
        assert(p =~= q.subrange(0, p.len() as int));
    }
}

/// Something of layer `n` at `p` that is not a directory suppresses, beyond
/// what was suppressed before, exactly what is below `p` in layers older than
/// `n`. A directory suppresses nothing.
pub proof fn law_entry_hides_what_is_below(
    m: Marks,
    p: Seq<Seq<char>>,
    kind: EntryType,
    n: nat,
    q: Seq<Seq<char>>,
    layer: nat,
)
    ensures
        suppressed(with_entry(m, p, kind, n), q, layer) <==> suppressed(m, q, layer) || (kind
            != EntryType::Directory && 0 < p.len() < q.len() && p.is_prefix_of(q) && n > layer),
{
    if kind != EntryType::Directory && p.len() > 0 {
        let after = with_entry(m, p, kind, n);
        if suppressed(m, q, layer) {
            if exists|k: int| 0 <= k < q.len() && #[trigger] newer_at(m.shadows, q.take(k), layer) {
                let k = choose|k: int|
                    0 <= k < q.len() && #[trigger] newer_at(m.shadows, q.take(k), layer);
                lemma_mark_newest(m.shadows, p, n, q.take(k), layer);
                assert(newer_at(after.shadows, q.take(k), layer));
            } else {
                let k = choose|k: int|
                    0 <= k <= q.len() && #[trigger] newer_at(m.whiteouts, q.take(k), layer);
                assert(newer_at(after.whiteouts, q.take(k), layer));
            }
        }
        if p.len() < q.len() && p.is_prefix_of(q) && n > layer {
            assert(q.take(p.len() as int) =~= p);
            lemma_mark_newest(m.shadows, p, n, p, layer);
            assert(newer_at(after.shadows, q.take(p.len() as int), layer));
        }
        if suppressed(after, q, layer) && !suppressed(m, q, layer) {
            assert(forall|k: int| 0 <= k <= q.len() ==> !#[trigger] newer_at(
                m.whiteouts,
                q.take(k),
                layer,
            ));
            let k = choose|k: int|
                0 <= k < q.len() && #[trigger] newer_at(after.shadows, q.take(k), layer);
            lemma_mark_newest(m.shadows, p, n, q.take(k), layer);
            assert(!newer_at(m.shadows, q.take(k), layer));
            assert(p =~= q.subrange(0, p.len() as int));
        }
    }
}

// ── One layer ───────────────────────────────────────────────────────────────

proof fn lemma_step_suppressed(run: Run, e: EntryView, layer: nat, q: Seq<Seq<char>>)
    requires
        step(run, e, layer) is Ok,
    ensures
        suppressed(step(run, e, layer)->Ok_0.state.marks, q, layer) == suppressed(
            run.state.marks,
            q,
            layer,
        ),
{
    let path = clean_path(e.path);
    match naming(path) {
        Naming::Root => {},
        Naming::Whiteout(p) => {
            law_whiteout_suppresses(run.state.marks, p, layer, q, layer);
        },
        Naming::Content => {
            if captured(e) is Ok {
                law_entry_hides_what_is_below(
                    run.state.marks,
                    names(path),
                    type_of(captured(e)->Ok_0),
                    layer,
                    q,
                    layer,
                );
            }
        },
    }
}

/// What a layer holds is never suppressed by anything of the same layer: its
/// own whiteouts act on older layers only, wherever they stand in it.
pub proof fn law_own_whiteouts_spare_the_layer(
    run: Run,
    entries: Seq<EntryView>,
    layer: nat,
    q: Seq<Seq<char>>,
)
    requires
        steps(run, entries, layer) is Ok,
    ensures
        suppressed(steps(run, entries, layer)->Ok_0.state.marks, q, layer) == suppressed(
            run.state.marks,
            q,
            layer,
        ),
    decreases entries.len(),
{
    if entries.len() > 0 {
        law_own_whiteouts_spare_the_layer(run, entries.drop_last(), layer, q);
        lemma_step_suppressed(
            steps(run, entries.drop_last(), layer)->Ok_0,
            entries.last(),
            layer,
            q,
        );
    }
}

/// Whether an entry is a whiteout of `p`.
pub open spec fn removes(e: EntryView, p: Seq<Seq<char>>) -> bool {
    naming(clean_path(e.path)) == Naming::Whiteout(p)
}

/// Whether entries hold a whiteout of `p`.
pub open spec fn entries_remove(entries: Seq<EntryView>, p: Seq<Seq<char>>) -> bool {
    exists|i: int| 0 <= i < entries.len() && removes(#[trigger] entries[i], p)
}

/// Whether a layer holds a whiteout of `p`.
pub open spec fn layer_removes(layer: LayerView, p: Seq<Seq<char>>) -> bool {
    entries_remove(layer_entries(layer), p)
}

proof fn lemma_step_whiteouts(run: Run, e: EntryView, n: nat, p: Seq<Seq<char>>, layer: nat)
    requires
        step(run, e, n) is Ok,
    ensures
        newer_at(step(run, e, n)->Ok_0.state.marks.whiteouts, p, layer) <==> newer_at(
            run.state.marks.whiteouts,
            p,
            layer,
        ) || (removes(e, p) && n > layer),
{
}

proof fn lemma_steps_whiteouts(
    run: Run,
    entries: Seq<EntryView>,
    n: nat,
    p: Seq<Seq<char>>,
    layer: nat,
)
    requires
        steps(run, entries, n) is Ok,
    ensures
        newer_at(steps(run, entries, n)->Ok_0.state.marks.whiteouts, p, layer) <==> newer_at(
            run.state.marks.whiteouts,
            p,
            layer,
        ) || (entries_remove(entries, p) && n > layer),
    decreases entries.len(),
{
    if entries.len() > 0 {
        let rest = entries.drop_last();
        lemma_steps_whiteouts(run, rest, n, p, layer);
        lemma_step_whiteouts(steps(run, rest, n)->Ok_0, entries.last(), n, p, layer);
        if entries_remove(rest, p) {
            let i = choose|i: int| 0 <= i < rest.len() && removes(#[trigger] rest[i], p);
            assert(removes(entries[i], p));
        }
        if entries_remove(entries, p) && !removes(entries.last(), p) {
            let i = choose|i: int| 0 <= i < entries.len() && removes(#[trigger] entries[i], p);
            assert(removes(rest[i], p));
        }
        if removes(entries.last(), p) {
            assert(removes(entries[entries.len() - 1], p));
        }
    }
}

/// Whether one of the layers, newer than `layer`, holds a whiteout of `p`.
pub open spec fn removed_above(order: Seq<LayerView>, p: Seq<Seq<char>>, layer: nat) -> bool {
    exists|i: int|
        0 <= i < order.len() && (#[trigger] order[i]).index > layer && layer_removes(order[i], p)
}

/// The whiteouts that act on a layer are those of the newer layers that have
/// been merged, and no others.
pub proof fn law_whiteouts_act_on_older_layers(
    order: Seq<LayerView>,
    p: Seq<Seq<char>>,
    layer: nat,
)
    requires
        layers_merged(fresh_run(), order) is Ok,
    ensures
        newer_at(
            layers_merged(fresh_run(), order)->Ok_0.state.marks.whiteouts,
            p,
            layer,
        ) <==> removed_above(order, p, layer),
    decreases order.len(),
{
    if order.len() > 0 {
        let rest = order.drop_last();
        let top = order.last();
        law_whiteouts_act_on_older_layers(rest, p, layer);
        let before = layers_merged(fresh_run(), rest)->Ok_0;
        let entries = layer_entries(top);
        lemma_steps_whiteouts(before, entries, top.index, p, layer);
        if removed_above(rest, p, layer) {
            let i = choose|i: int|
                0 <= i < rest.len() && (#[trigger] rest[i]).index > layer && layer_removes(
                    rest[i],
                    p,
                );
            assert(order[i].index > layer && layer_removes(order[i], p));
        }
        if removed_above(order, p, layer) && !(top.index > layer && layer_removes(top, p)) {
            let i = choose|i: int|
                0 <= i < order.len() && (#[trigger] order[i]).index > layer && layer_removes(
                    order[i],
                    p,
                );
            assert(rest[i].index > layer && layer_removes(rest[i], p));
        }
        if top.index > layer && layer_removes(top, p) {
            assert(order[order.len() - 1].index > layer && layer_removes(
                order[order.len() - 1],
                p,
            ));
        }
    }
}

proof fn lemma_step_log_grows(run: Run, e: EntryView, layer: nat)
    requires
        step(run, e, layer) is Ok,
    ensures
        run.log.is_prefix_of(step(run, e, layer)->Ok_0.log),
        step(run, e, layer)->Ok_0.log.len() <= run.log.len() + 1,
        step(run, e, layer)->Ok_0.log.len() > run.log.len() ==> {
            let path = step(run, e, layer)->Ok_0.log.last().path();
            !suppressed(run.state.marks, names(path), layer)
        },
{
    let after = step(run, e, layer)->Ok_0;
    assert(run.log =~= after.log.subrange(0, run.log.len() as int));
}

/// Nothing is written for a layer that is suppressed by what was merged before
/// it.
pub proof fn law_suppressed_content_stays_out(
    run: Run,
    entries: Seq<EntryView>,
    layer: nat,
    k: int,
)
    requires
        steps(run, entries, layer) is Ok,
        run.log.len() <= k < steps(run, entries, layer)->Ok_0.log.len(),
    ensures
        !suppressed(
            run.state.marks,
            names(steps(run, entries, layer)->Ok_0.log[k].path()),
            layer,
        ),
        run.log.is_prefix_of(steps(run, entries, layer)->Ok_0.log),
    decreases entries.len(),
{
    lemma_steps_log_grows(run, entries, layer);
    if entries.len() > 0 {
        let mid = steps(run, entries.drop_last(), layer)->Ok_0;
        let end = steps(run, entries, layer)->Ok_0;
        lemma_step_log_grows(mid, entries.last(), layer);
        if k < mid.log.len() {
            law_suppressed_content_stays_out(run, entries.drop_last(), layer, k);
            assert(end.log.subrange(0, mid.log.len() as int)[k] == end.log[k]);
        } else {
            law_own_whiteouts_spare_the_layer(
                run,
                entries.drop_last(),
                layer,
                names(end.log[k].path()),
            );
        }
    }
}

proof fn lemma_steps_log_grows(run: Run, entries: Seq<EntryView>, layer: nat)
    requires
        steps(run, entries, layer) is Ok,
    ensures
        run.log.is_prefix_of(steps(run, entries, layer)->Ok_0.log),
    decreases entries.len(),
{
    let end = steps(run, entries, layer)->Ok_0;
    if entries.len() > 0 {
        lemma_steps_log_grows(run, entries.drop_last(), layer);
        let mid = steps(run, entries.drop_last(), layer)->Ok_0;
        lemma_step_log_grows(mid, entries.last(), layer);
        assert(run.log =~= end.log.subrange(0, run.log.len() as int)) by {
            assert forall|i: int| 0 <= i < run.log.len() implies run.log[i] == end.log[i] by {
                assert(run.log[i] == mid.log.subrange(0, run.log.len() as int)[i]);
                assert(mid.log[i] == end.log.subrange(0, mid.log.len() as int)[i]);
            }
        }
    } else {
        assert(run.log =~= end.log.subrange(0, run.log.len() as int));
    }
}

/// What a newer layer has removed, no older layer brings back: if the layer at
/// position `i` of the order has a whiteout of `p` and the layer at position
/// `j` is older, then nothing that is written for the latter is at or below
/// `p`.
pub proof fn law_removed_content_stays_out(
    order: Seq<LayerView>,
    i: int,
    j: int,
    p: Seq<Seq<char>>,
    k: int,
)
    requires
        0 <= i < j < order.len(),
        order[i].index > order[j].index,
        layer_removes(order[i], p),
        layers_merged(fresh_run(), order.take(j)) is Ok,
        layers_merged(fresh_run(), order.take(j + 1)) is Ok,
        layers_merged(fresh_run(), order.take(j))->Ok_0.log.len() <= k < layers_merged(
            fresh_run(),
            order.take(j + 1),
        )->Ok_0.log.len(),
    ensures
        !p.is_prefix_of(
            names(layers_merged(fresh_run(), order.take(j + 1))->Ok_0.log[k].path()),
        ),
{
    let above = order.take(j);
    let layer = order[j];
    let before = layers_merged(fresh_run(), above)->Ok_0;
    assert(order.take(j + 1).drop_last() =~= above);
    let entries = layer_entries(layer);
    law_suppressed_content_stays_out(before, entries, layer.index, k);
    law_whiteouts_act_on_older_layers(above, p, layer.index);
    assert(above[i].index > layer.index && layer_removes(above[i], p));
    let q = names(layers_merged(fresh_run(), order.take(j + 1))->Ok_0.log[k].path());
    if p.is_prefix_of(q) {
        assert(q.take(p.len() as int) =~= p);
        assert(newer_at(before.state.marks.whiteouts, q.take(p.len() as int), layer.index));
    }
}

// ── What hides what ─────────────────────────────────────────────────────────

proof fn lemma_step_shadows(run: Run, e: EntryView, n: nat, p: Seq<Seq<char>>, layer: nat)
    requires
        step(run, e, n) is Ok,
    ensures
        newer_at(run.state.marks.shadows, p, layer) ==> newer_at(
            step(run, e, n)->Ok_0.state.marks.shadows,
            p,
            layer,
        ),
        step(run, e, n)->Ok_0.log.len() > run.log.len() && n > layer && hides(
            step(run, e, n)->Ok_0.log.last(),
            p,
        ) ==> newer_at(step(run, e, n)->Ok_0.state.marks.shadows, p, layer),
{
}

/// Whether an emission is something other than a directory at `p`, which is not
/// the root.
pub open spec fn hides(e: EmissionView, p: Seq<Seq<char>>) -> bool {
    &&& p.len() > 0
    &&& names(e.path()) == p
    &&& e matches EmissionView::Entry { header, .. } ==> type_of(header) != EntryType::Directory
}

proof fn lemma_steps_shadows(
    run: Run,
    entries: Seq<EntryView>,
    n: nat,
    p: Seq<Seq<char>>,
    layer: nat,
)
    requires
        steps(run, entries, n) is Ok,
    ensures
        newer_at(run.state.marks.shadows, p, layer) ==> newer_at(
            steps(run, entries, n)->Ok_0.state.marks.shadows,
            p,
            layer,
        ),
        forall|k: int|
            run.log.len() <= k < steps(run, entries, n)->Ok_0.log.len() && n > layer && hides(
                #[trigger] steps(run, entries, n)->Ok_0.log[k],
                p,
            ) ==> newer_at(steps(run, entries, n)->Ok_0.state.marks.shadows, p, layer),
    decreases entries.len(),
{
    if entries.len() > 0 {
        let rest = entries.drop_last();
        lemma_steps_shadows(run, rest, n, p, layer);
        let mid = steps(run, rest, n)->Ok_0;
        let end = steps(run, entries, n)->Ok_0;
        lemma_step_shadows(mid, entries.last(), n, p, layer);
        lemma_step_log_grows(mid, entries.last(), n);
        assert forall|k: int|
            run.log.len() <= k < end.log.len() && n > layer && hides(
                #[trigger] end.log[k],
                p,
            ) implies newer_at(end.state.marks.shadows, p, layer) by {
            if k < mid.log.len() {
                assert(end.log.subrange(0, mid.log.len() as int)[k] == end.log[k]);
                assert(mid.log[k] == end.log[k]);
            }
        }
    }
}

proof fn lemma_layers_shadows(
    order: Seq<LayerView>,
    i: int,
    j: int,
    p: Seq<Seq<char>>,
    layer: nat,
)
    requires
        0 <= i <= j <= order.len(),
        layers_merged(fresh_run(), order.take(i)) is Ok,
        layers_merged(fresh_run(), order.take(j)) is Ok,
        newer_at(
            layers_merged(fresh_run(), order.take(i))->Ok_0.state.marks.shadows,
            p,
            layer,
        ),
    ensures
        newer_at(
            layers_merged(fresh_run(), order.take(j))->Ok_0.state.marks.shadows,
            p,
            layer,
        ),
    decreases j,
{
    if i < j {
        assert(order.take(j).drop_last() =~= order.take(j - 1));
        lemma_layers_shadows(order, i, j - 1, p, layer);
        let before = layers_merged(fresh_run(), order.take(j - 1))->Ok_0;
        let top = order.take(j).last();
        lemma_steps_shadows(before, layer_entries(top), top.index, p, layer);
    }
}

/// What is no directory hides what older layers have below it: if something
/// other than a directory was written for the layer at position `i` of the
/// order, and the layer at position `j` is older, then nothing that is written
/// for the latter is below it.
pub proof fn law_files_hide_older_content(
    order: Seq<LayerView>,
    i: int,
    j: int,
    f: int,
    k: int,
    p: Seq<Seq<char>>,
)
    requires
        0 <= i < j < order.len(),
        order[i].index > order[j].index,
        layers_merged(fresh_run(), order.take(i)) is Ok,
        layers_merged(fresh_run(), order.take(i + 1)) is Ok,
        layers_merged(fresh_run(), order.take(j)) is Ok,
        layers_merged(fresh_run(), order.take(j + 1)) is Ok,
        layers_merged(fresh_run(), order.take(i))->Ok_0.log.len() <= f < layers_merged(
            fresh_run(),
            order.take(i + 1),
        )->Ok_0.log.len(),
        hides(layers_merged(fresh_run(), order.take(i + 1))->Ok_0.log[f], p),
        layers_merged(fresh_run(), order.take(j))->Ok_0.log.len() <= k < layers_merged(
            fresh_run(),
            order.take(j + 1),
        )->Ok_0.log.len(),
    ensures
        ({
            let q = names(layers_merged(fresh_run(), order.take(j + 1))->Ok_0.log[k].path());
            !(p.len() < q.len() && p.is_prefix_of(q))
        }),
{
    let layer = order[j].index;
    assert(order.take(i + 1).drop_last() =~= order.take(i));
    assert(order.take(j + 1).drop_last() =~= order.take(j));
    let upper = layers_merged(fresh_run(), order.take(i))->Ok_0;
    lemma_steps_shadows(upper, layer_entries(order[i]), order[i].index, p, layer);
    lemma_layers_shadows(order, i + 1, j, p, layer);
    let before = layers_merged(fresh_run(), order.take(j))->Ok_0;
    law_suppressed_content_stays_out(before, layer_entries(order[j]), layer, k);
    let q = names(layers_merged(fresh_run(), order.take(j + 1))->Ok_0.log[k].path());
    if p.len() < q.len() && p.is_prefix_of(q) {
        assert(q.take(p.len() as int) =~= p);
        assert(newer_at(before.state.marks.shadows, q.take(p.len() as int), layer));
    }
}

// ── What is written ─────────────────────────────────────────────────────────

/// Whether something with the given path key has been written.
pub open spec fn logged(log: Seq<EmissionView>, key: Seq<char>) -> bool {
    exists|i: int| 0 <= i < log.len() && path_key((#[trigger] log[i]).path()) == key
}

/// Whether no path is written twice.
pub open spec fn each_path_once(log: Seq<EmissionView>) -> bool {
    forall|i: int, j: int|
        0 <= i < j < log.len() ==> path_key((#[trigger] log[i]).path()) != path_key(
            (#[trigger] log[j]).path(),
        )
}

/// Whether an emission is an entry of a layer as it is: content, and no hard
/// link.
pub open spec fn plain_content(e: EmissionView) -> bool {
    &&& e matches EmissionView::Entry { header, path, data } && type_of(header) != EntryType::Link
    &&& naming(e.path()) == Naming::Content
}

/// Whether a hard link entry is kept with its own target.
pub open spec fn keeps_target(header: HeaderView, target: Seq<char>) -> bool {
    &&& type_of(header) == EntryType::Link
    &&& link_name_of(header) matches Some(raw) && target == clean_path(raw)
}

/// Whether a hard link that waits has its path to itself: the path is claimed,
/// and nothing has been written there.
pub open spec fn waits(st: MergeView, link: Seq<char>) -> bool {
    st.claimed.contains(path_key(link)) && !st.emitted.contains(path_key(link))
}

/// Whether every path has one claim: what has been written is claimed, and no
/// two hard links wait for one path.
pub open spec fn claimed_once(st: MergeView) -> bool {
    let d = st.links.deferred;
    let p = st.links.promotions;
    &&& forall|key: Seq<char>| #[trigger] st.emitted.contains(key) ==> st.claimed.contains(key)
    &&& forall|i: int| 0 <= i < d.len() ==> waits(st, (#[trigger] d[i]).link)
    &&& forall|i: int| 0 <= i < p.len() ==> waits(st, (#[trigger] p[i]).link)
    &&& forall|i: int, j: int|
        0 <= i < j < d.len() ==> path_key((#[trigger] d[i]).link) != path_key(
            (#[trigger] d[j]).link,
        )
    &&& forall|i: int, j: int|
        0 <= i < j < p.len() ==> path_key((#[trigger] p[i]).link) != path_key(
            (#[trigger] p[j]).link,
        )
    &&& forall|i: int, j: int|
        0 <= i < d.len() && 0 <= j < p.len() ==> path_key((#[trigger] d[i]).link) != path_key(
            (#[trigger] p[j]).link,
        )
}

/// What holds after every entry of every layer.
pub open spec fn sound_run(run: Run) -> bool {
    &&& forall|i: int| 0 <= i < run.log.len() ==> plain_content(#[trigger] run.log[i])
    &&& each_path_once(run.log)
    &&& claimed_once(run.state)
    &&& forall|key: Seq<char>| #[trigger]
        run.state.emitted.contains(key) <==> logged(run.log, key)
    &&& forall|i: int|
        0 <= i < run.state.links.deferred.len() ==> keeps_target(
            (#[trigger] run.state.links.deferred[i]).header,
            run.state.links.deferred[i].target,
        ) && naming(run.state.links.deferred[i].link) == Naming::Content
    &&& forall|i: int|
        0 <= i < run.state.links.promotions.len() ==> naming(
            (#[trigger] run.state.links.promotions[i]).link,
        ) == Naming::Content
}

proof fn lemma_logged_push(log: Seq<EmissionView>, e: EmissionView, key: Seq<char>)
    ensures
        logged(log.push(e), key) <==> logged(log, key) || path_key(e.path()) == key,
{
    let after = log.push(e);
    if logged(log, key) {
        let i = choose|i: int| 0 <= i < log.len() && path_key((#[trigger] log[i]).path()) == key;
        assert(path_key(after[i].path()) == key);
    }
    if path_key(e.path()) == key {
        assert(path_key(after[log.len() as int].path()) == key);
    }
    if logged(after, key) && path_key(e.path()) != key {
        let i = choose|i: int|
            0 <= i < after.len() && path_key((#[trigger] after[i]).path()) == key;
        assert(path_key(log[i].path()) == key);
    }
}

proof fn lemma_step_claims(run: Run, e: EntryView, layer: nat)
    requires
        claimed_once(run.state),
        step(run, e, layer) is Ok,
    ensures
        claimed_once(step(run, e, layer)->Ok_0.state),
{
    let before = run.state;
    let after = step(run, e, layer)->Ok_0.state;
    let (d, p) = (before.links.deferred, before.links.promotions);
    let (d2, p2) = (after.links.deferred, after.links.promotions);
    assert forall|i: int| 0 <= i < d2.len() implies waits(after, (#[trigger] d2[i]).link) by {
        if i < d.len() {
            assert(waits(before, d[i].link));
        }
    }
    assert forall|i: int| 0 <= i < p2.len() implies waits(after, (#[trigger] p2[i]).link) by {
        if i < p.len() {
            assert(p2[i].link == p[i].link);
            assert(waits(before, p[i].link));
        }
    }
    assert forall|i: int, j: int| 0 <= i < j < d2.len() implies path_key(
        (#[trigger] d2[i]).link,
    ) != path_key((#[trigger] d2[j]).link) by {
        assert(d2[i] == d[i] && waits(before, d[i].link));
    }
    assert forall|i: int, j: int| 0 <= i < j < p2.len() implies path_key(
        (#[trigger] p2[i]).link,
    ) != path_key((#[trigger] p2[j]).link) by {
        assert(p2[i].link == p[i].link && waits(before, p[i].link));
        if j < p.len() {
            assert(p2[j].link == p[j].link);
        }
    }
    assert forall|i: int, j: int| 0 <= i < d2.len() && 0 <= j < p2.len() implies path_key(
        (#[trigger] d2[i]).link,
    ) != path_key((#[trigger] p2[j]).link) by {
        if i < d.len() {
            assert(d2[i] == d[i] && waits(before, d[i].link));
        }
        if j < p.len() {
            assert(p2[j].link == p[j].link && waits(before, p[j].link));
        }
    }
}

proof fn lemma_step_sound(run: Run, e: EntryView, layer: nat)
    requires
        sound_run(run),
        step(run, e, layer) is Ok,
    ensures
        sound_run(step(run, e, layer)->Ok_0),
{
    let after = step(run, e, layer)->Ok_0;
    let path = clean_path(e.path);
    lemma_step_claims(run, e, layer);
    match admission(run.state, e, layer) {
        Ok((st, AdmissionView::Emit { path, header })) => {
            let emission = EmissionView::Entry { header, path, data: e.data };
            assert(!run.state.emitted.contains(path_key(path)));
            assert forall|key: Seq<char>| #[trigger]
                after.state.emitted.contains(key) <==> logged(after.log, key) by {
                lemma_logged_push(run.log, emission, key);
            }
            assert(each_path_once(after.log)) by {
                assert forall|i: int, j: int| 0 <= i < j < after.log.len() implies path_key(
                    (#[trigger] after.log[i]).path(),
                ) != path_key((#[trigger] after.log[j]).path()) by {
                    if j < run.log.len() {
                        assert(after.log[i] == run.log[i] && after.log[j] == run.log[j]);
                    } else {
                        assert(after.log[i] == run.log[i]);
                        assert(after.log[j] == emission);
                        if path_key(run.log[i].path()) == path_key(path) {
                            assert(logged(run.log, path_key(path)));
                        }
                    }
                }
            }
        },
        _ => {},
    }
}

proof fn lemma_steps_sound(run: Run, entries: Seq<EntryView>, layer: nat)
    requires
        sound_run(run),
        steps(run, entries, layer) is Ok,
    ensures
        sound_run(steps(run, entries, layer)->Ok_0),
    decreases entries.len(),
{
    if entries.len() > 0 {
        lemma_steps_sound(run, entries.drop_last(), layer);
        lemma_step_sound(
            steps(run, entries.drop_last(), layer)->Ok_0,
            entries.last(),
            layer,
        );
    }
}

/// After any layers: what has been written is content of the layers as it is,
/// no whiteout, no root entry and no hard link; no path has been written twice;
/// exactly the paths that have been written are known to be; every hard link
/// that waits has its path to itself; and every deferred one keeps the target
/// that its header names.
pub proof fn law_layers_write_each_path_once(order: Seq<LayerView>)
    requires
        layers_merged(fresh_run(), order) is Ok,
    ensures
        sound_run(layers_merged(fresh_run(), order)->Ok_0),
    decreases order.len(),
{
    if order.len() > 0 {
        law_layers_write_each_path_once(order.drop_last());
        lemma_steps_sound(
            layers_merged(fresh_run(), order.drop_last())->Ok_0,
            layer_entries(order.last()),
            order.last().index,
        );
    }
}

proof fn lemma_claimed_grows(run: Run, entries: Seq<EntryView>, layer: nat, n: int, key: Seq<char>)
    requires
        0 <= n <= entries.len(),
        steps(run, entries, layer) is Ok,
        steps(run, entries.take(n), layer) is Ok,
        steps(run, entries.take(n), layer)->Ok_0.state.claimed.contains(key),
    ensures
        steps(run, entries, layer)->Ok_0.state.claimed.contains(key),
    decreases entries.len(),
{
    if n == entries.len() {
        assert(entries.take(n) =~= entries);
    } else {
        assert(entries.drop_last().take(n) =~= entries.take(n));
        lemma_claimed_grows(run, entries.drop_last(), layer, n, key);
    }
}

/// Whether an entry is content of a kind that is written as it is.
pub open spec fn written_kind(e: EntryView) -> bool {
    &&& naming(clean_path(e.path)) == Naming::Content
    &&& captured(e) matches Ok(header) && type_of(header) != EntryType::Link
}

/// Content that nothing newer has removed is not passed over: after its layer,
/// its path is claimed, by its own version or by a newer one.
pub proof fn law_live_content_is_claimed(run: Run, entries: Seq<EntryView>, layer: nat, n: int)
    requires
        steps(run, entries, layer) is Ok,
        0 <= n < entries.len(),
        naming(clean_path(entries[n].path)) == Naming::Content,
        !suppressed(run.state.marks, names(clean_path(entries[n].path)), layer),
    ensures
        steps(run, entries, layer)->Ok_0.state.claimed.contains(
            path_key(clean_path(entries[n].path)),
        ),
{
    let e = entries[n];
    let path = clean_path(e.path);
    lemma_steps_prefix_ok(run, entries, layer, n);
    lemma_steps_prefix_ok(run, entries, layer, n + 1);
    let mid = steps(run, entries.take(n), layer)->Ok_0;
    assert(entries.take(n + 1).drop_last() =~= entries.take(n));
    law_own_whiteouts_spare_the_layer(run, entries.take(n), layer, names(path));
    assert(steps(run, entries.take(n + 1), layer)->Ok_0.state.claimed.contains(path_key(path)));
    lemma_claimed_grows(run, entries, layer, n + 1, path_key(path));
}

proof fn lemma_steps_prefix_ok(run: Run, entries: Seq<EntryView>, layer: nat, n: int)
    requires
        0 <= n <= entries.len(),
        steps(run, entries, layer) is Ok,
    ensures
        steps(run, entries.take(n), layer) is Ok,
    decreases entries.len(),
{
    if n == entries.len() {
        assert(entries.take(n) =~= entries);
    } else {
        assert(entries.drop_last().take(n) =~= entries.take(n));
        lemma_steps_prefix_ok(run, entries.drop_last(), layer, n);
    }
}

proof fn lemma_log_prefix(run: Run, entries: Seq<EntryView>, layer: nat, n: int)
    requires
        0 <= n <= entries.len(),
        steps(run, entries, layer) is Ok,
    ensures
        steps(run, entries.take(n), layer) is Ok,
        steps(run, entries.take(n), layer)->Ok_0.log.is_prefix_of(
            steps(run, entries, layer)->Ok_0.log,
        ),
    decreases entries.len(),
{
    lemma_steps_prefix_ok(run, entries, layer, n);
    let part = steps(run, entries.take(n), layer)->Ok_0.log;
    let all = steps(run, entries, layer)->Ok_0.log;
    if n == entries.len() {
        assert(entries.take(n) =~= entries);
        assert(part =~= all.subrange(0, part.len() as int));
    } else {
        assert(entries.drop_last().take(n) =~= entries.take(n));
        lemma_log_prefix(run, entries.drop_last(), layer, n);
        let mid = steps(run, entries.drop_last(), layer)->Ok_0;
        lemma_step_log_grows(mid, entries.last(), layer);
        assert(part =~= all.subrange(0, part.len() as int)) by {
            assert forall|i: int| 0 <= i < part.len() implies part[i] == all[i] by {
                assert(part[i] == mid.log.subrange(0, part.len() as int)[i]);
                assert(mid.log[i] == all.subrange(0, mid.log.len() as int)[i]);
            }
        }
    }
}

/// The newest version of a path wins: content that nothing newer has removed,
/// whose path no newer layer and nothing earlier in its own layer has claimed,
/// is written with its own header and content.
pub proof fn law_newest_version_wins(run: Run, entries: Seq<EntryView>, layer: nat, n: int)
    requires
        steps(run, entries, layer) is Ok,
        0 <= n < entries.len(),
        written_kind(entries[n]),
        !suppressed(run.state.marks, names(clean_path(entries[n].path)), layer),
        !steps(run, entries.take(n), layer)->Ok_0.state.claimed.contains(
            path_key(clean_path(entries[n].path)),
        ),
    ensures
        steps(run, entries, layer)->Ok_0.log.contains(
            EmissionView::Entry {
                header: captured(entries[n])->Ok_0,
                path: clean_path(entries[n].path),
                data: entries[n].data,
            },
        ),
{
    let e = entries[n];
    let path = clean_path(e.path);
    lemma_log_prefix(run, entries, layer, n);
    lemma_log_prefix(run, entries, layer, n + 1);
    let mid = steps(run, entries.take(n), layer)->Ok_0;
    assert(entries.take(n + 1).drop_last() =~= entries.take(n));
    law_own_whiteouts_spare_the_layer(run, entries.take(n), layer, names(path));
    let next = steps(run, entries.take(n + 1), layer)->Ok_0.log;
    let all = steps(run, entries, layer)->Ok_0.log;
    let emission = EmissionView::Entry { header: captured(e)->Ok_0, path, data: e.data };
    assert(next == mid.log.push(emission));
    assert(next[mid.log.len() as int] == emission);
    assert(all.subrange(0, next.len() as int)[mid.log.len() as int] == emission);
    assert(all[mid.log.len() as int] == emission);
}

/// The newest version of a path wins where it is a hard link, too: one that
/// nothing newer has removed, whose path has not been claimed, waits with its
/// own target, as a promotion where that is removed.
pub proof fn law_newest_link_waits(run: Run, e: EntryView, layer: nat)
    requires
        step(run, e, layer) is Ok,
        naming(clean_path(e.path)) == Naming::Content,
        captured(e) is Ok,
        type_of(captured(e)->Ok_0) == EntryType::Link,
        !suppressed(run.state.marks, names(clean_path(e.path)), layer),
        !run.state.claimed.contains(path_key(clean_path(e.path))),
    ensures
        ({
            let after = step(run, e, layer)->Ok_0.state;
            let target = clean_path(link_name_of(captured(e)->Ok_0)->Some_0);
            &&& link_name_of(captured(e)->Ok_0) is Some
            &&& after.claimed.contains(path_key(clean_path(e.path)))
            &&& if suppressed(run.state.marks, names(target), layer) {
                &&& after.links.promotions.len() == run.state.links.promotions.len() + 1
                &&& after.links.promotions.last().link == clean_path(e.path)
                &&& after.links.promotions.last().target == target
            } else {
                after.links.deferred == run.state.links.deferred.push(
                    LinkView { link: clean_path(e.path), target, layer, header: captured(e)->Ok_0 },
                )
            }
        }),
{
}

/// Once a path is claimed, nothing of an older version of it is written or
/// waits.
pub proof fn law_claimed_path_is_skipped(run: Run, e: EntryView, layer: nat)
    requires
        step(run, e, layer) is Ok,
        naming(clean_path(e.path)) == Naming::Content,
        !suppressed(run.state.marks, names(clean_path(e.path)), layer),
        run.state.claimed.contains(path_key(clean_path(e.path))),
    ensures
        step(run, e, layer)->Ok_0 == run,
{
}

// ── Deferred links ──────────────────────────────────────────────────────────

/// Whether the headers of a layer's entries are whole blocks.
pub open spec fn whole_headers(layer: LayerView) -> bool {
    forall|i: int|
        0 <= i < layer_entries(layer).len() ==> (#[trigger] layer_entries(layer)[i]).header.len()
            == 512
}

/// Whether the headers of files that wait to be promoted are whole blocks.
spec fn whole_files(run: Run) -> bool {
    &&& forall|i: int|
        0 <= i < run.state.links.promotions.len() ==> ((
        #[trigger] run.state.links.promotions[i]).file matches Some(f) ==> f.0.block.len() == 512)
    &&& forall|key: Seq<char>| #[trigger]
        run.state.links.buffered.contains_key(key) ==> run.state.links.buffered[key].0.block.len()
            == 512
}

proof fn lemma_steps_whole(run: Run, entries: Seq<EntryView>, layer: nat)
    requires
        whole_files(run),
        steps(run, entries, layer) is Ok,
        forall|i: int| 0 <= i < entries.len() ==> (#[trigger] entries[i]).header.len() == 512,
    ensures
        whole_files(steps(run, entries, layer)->Ok_0),
    decreases entries.len(),
{
    if entries.len() > 0 {
        lemma_steps_whole(run, entries.drop_last(), layer);
        let mid = steps(run, entries.drop_last(), layer)->Ok_0;
        let e = entries[entries.len() - 1];
        assert(e.header.len() == 512);
        let after = step(mid, e, layer)->Ok_0;
        assert forall|i: int| 0 <= i < after.state.links.promotions.len() implies ((
        #[trigger] after.state.links.promotions[i]).file matches Some(f) ==> f.0.block.len()
            == 512) by {
            if i < mid.state.links.promotions.len() {
                let was = mid.state.links.promotions[i];
            }
        }
    }
}

proof fn lemma_layers_whole(order: Seq<LayerView>)
    requires
        layers_merged(fresh_run(), order) is Ok,
        forall|i: int| 0 <= i < order.len() ==> whole_headers(#[trigger] order[i]),
    ensures
        whole_files(layers_merged(fresh_run(), order)->Ok_0),
    decreases order.len(),
{
    if order.len() > 0 {
        lemma_layers_whole(order.drop_last());
        assert(whole_headers(order[order.len() - 1]));
        lemma_steps_whole(
            layers_merged(fresh_run(), order.drop_last())->Ok_0,
            layer_entries(order.last()),
            order.last().index,
        );
    }
}

/// Whether the emission at `i` is no hard link, or one whose target has been
/// written before it.
pub open spec fn target_precedes(log: Seq<EmissionView>, i: int) -> bool {
    match log[i] {
        EmissionView::HardLink { target, .. } => logged(log.take(i), path_key(target)),
        EmissionView::Entry { header, .. } => type_of(header) == EntryType::Link ==> (
        link_name_of(header) matches Some(raw) && logged(log.take(i), path_key(clean_path(raw)))),
    }
}

/// What holds while deferred links are written behind `base`.
#[verifier::opaque]
spec fn sound_output(base: Seq<EmissionView>, o: Output) -> bool {
    let log = base + o.log;
    &&& forall|key: Seq<char>| #[trigger] o.emitted.contains(key) <==> logged(log, key)
    &&& forall|i: int|
        0 <= i < log.len() ==> target_precedes(log, i) && naming((#[trigger] log[i]).path())
            == Naming::Content
}

/// Whether an emission may follow what has been written.
spec fn may_follow(o: Output, e: EmissionView) -> bool {
    &&& naming(e.path()) == Naming::Content
    &&& match e {
        EmissionView::HardLink { target, .. } => o.emitted.contains(path_key(target)),
        EmissionView::Entry { header, .. } => type_of(header) == EntryType::Link ==> (
        link_name_of(header) matches Some(raw) && o.emitted.contains(path_key(clean_path(raw)))),
    }
}

proof fn lemma_emit_sound(base: Seq<EmissionView>, o: Output, e: EmissionView)
    requires
        sound_output(base, o),
        may_follow(o, e),
    ensures
        sound_output(base, emit(o, e)),
{
    reveal(sound_output);
    let log = base + o.log;
    let after = emit(o, e);
    let next = base + after.log;
    assert(next =~= log.push(e));
    assert forall|key: Seq<char>| #[trigger] after.emitted.contains(key) <==> logged(next, key) by {
        lemma_logged_push(log, e, key);
    }
    assert forall|i: int| 0 <= i < next.len() implies target_precedes(next, i) && naming(
        (#[trigger] next[i]).path(),
    ) == Naming::Content by {
        if i < log.len() {
            assert(next[i] == log[i]);
            assert(next.take(i) =~= log.take(i));
            assert(target_precedes(log, i));
        } else {
            assert(next[i] == e);
            assert(next.take(i) =~= log);
        }
    }
}

proof fn lemma_followers_sound(
    base: Seq<EmissionView>,
    o: Output,
    group: Seq<PromotionView>,
    leader: PromotionView,
)
    requires
        sound_output(base, o),
        o.emitted.contains(path_key(leader.link)),
        forall|i: int|
            0 <= i < group.len() ==> naming((#[trigger] group[i]).link) == Naming::Content,
    ensures
        sound_output(base, followers_emitted(o, group, leader)),
        followers_emitted(o, group, leader).emitted.contains(path_key(leader.link)),
    decreases group.len(),
{
    if group.len() > 0 {
        let rest = group.drop_last();
        assert forall|i: int| 0 <= i < rest.len() implies naming((#[trigger] rest[i]).link)
            == Naming::Content by {
            assert(rest[i] == group[i]);
        }
        lemma_followers_sound(base, o, rest, leader);
        let before = followers_emitted(o, rest, leader);
        let p = group[group.len() - 1];
        assert(naming(p.link) == Naming::Content);
        if !before.emitted.contains(path_key(p.link)) {
            let e = EmissionView::HardLink {
                header: match p.file {
                    Some(f) => f.0,
                    None => leader.file->Some_0.0,
                },
                link: p.link,
                target: leader.link,
            };
            assert(may_follow(before, e));
            lemma_emit_sound(base, before, e);
            assert(followers_emitted(o, group, leader) == emit(before, e));
        } else {
            assert(followers_emitted(o, group, leader) == before);
        }
    }
}

proof fn lemma_group_members(p: Seq<PromotionView>, target: Seq<char>, i: int)
    requires
        0 <= i < group_of(p, target).len(),
    ensures
        p.contains(group_of(p, target)[i]),
        path_key(group_of(p, target)[i].target) == path_key(target),
    decreases p.len(),
{
    if p.len() > 0 {
        let rest = group_of(p.drop_last(), target);
        if i < rest.len() {
            lemma_group_members(p.drop_last(), target, i);
            let j = choose|j: int| 0 <= j < p.drop_last().len() && p.drop_last()[j] == rest[i];
            assert(p[j] == rest[i]);
        } else {
            assert(p[p.len() - 1] == group_of(p, target)[i]);
        }
    }
}

proof fn lemma_group_sound(base: Seq<EmissionView>, o: Output, group: Seq<PromotionView>)
    requires
        sound_output(base, o),
        forall|i: int|
            0 <= i < group.len() ==> naming((#[trigger] group[i]).link) == Naming::Content && (
            group[i].file matches Some(f) ==> f.0.block.len() == 512),
    ensures
        sound_output(base, group_emitted(o, group)),
{
    let i = leader_of(group, o.emitted);
    lemma_leader_leads(group, o.emitted);
    if i < group.len() {
        let leader = group[i];
        let file = leader.file->Some_0;
        let e = EmissionView::Entry { header: as_regular(file.0), path: leader.link, data: file.1 };
        assert(type_of(as_regular(file.0)) == EntryType::Regular);
        lemma_emit_sound(base, o, e);
        lemma_followers_sound(base, emit(o, e), group, leader);
    }
}

proof fn lemma_groups_sound(
    base: Seq<EmissionView>,
    o: Output,
    promotions: Seq<PromotionView>,
    targets: Seq<Seq<char>>,
)
    requires
        sound_output(base, o),
        forall|i: int|
            0 <= i < promotions.len() ==> naming((#[trigger] promotions[i]).link)
                == Naming::Content && (promotions[i].file matches Some(f) ==> f.0.block.len()
                == 512),
    ensures
        sound_output(base, groups_emitted(o, promotions, targets)),
    decreases targets.len(),
{
    if targets.len() > 0 {
        lemma_groups_sound(base, o, promotions, targets.drop_last());
        let group = group_of(promotions, targets.last());
        assert forall|i: int| 0 <= i < group.len() implies naming((#[trigger] group[i]).link)
            == Naming::Content && (group[i].file matches Some(f) ==> f.0.block.len() == 512) by {
            lemma_group_members(promotions, targets.last(), i);
            let j = choose|j: int| 0 <= j < promotions.len() && promotions[j] == group[i];
            assert(promotions[j] == group[i]);
        }
        lemma_group_sound(base, groups_emitted(o, promotions, targets.drop_last()), group);
    }
}

proof fn lemma_links_sound(base: Seq<EmissionView>, o: Output, links: Seq<LinkView>)
    requires
        sound_output(base, o),
        forall|i: int|
            0 <= i < links.len() ==> keeps_target((#[trigger] links[i]).header, links[i].target)
                && naming(links[i].link) == Naming::Content,
    ensures
        sound_output(base, links_emitted(o, links)),
    decreases links.len(),
{
    if links.len() > 0 {
        let rest = links.drop_last();
        assert forall|i: int| 0 <= i < rest.len() implies keeps_target(
            (#[trigger] rest[i]).header,
            rest[i].target,
        ) && naming(rest[i].link) == Naming::Content by {
            assert(rest[i] == links[i]);
        }
        lemma_links_sound(base, o, rest);
        let before = links_emitted(o, rest);
        let l = links[links.len() - 1];
        assert(keeps_target(l.header, l.target));
        if before.emitted.contains(path_key(l.target)) && !before.emitted.contains(
            path_key(l.link),
        ) {
            let e = EmissionView::Entry { header: l.header, path: l.link, data: Seq::empty() };
            assert(may_follow(before, e));
            lemma_emit_sound(base, before, e);
            assert(links_emitted(o, links) == emit(before, e));
        } else {
            assert(links_emitted(o, links) == before);
        }
    }
}

proof fn lemma_settled_sound(
    base: Seq<EmissionView>,
    o: Output,
    links: Seq<LinkView>,
    rounds: nat,
)
    requires
        sound_output(base, o),
        forall|i: int|
            0 <= i < links.len() ==> keeps_target((#[trigger] links[i]).header, links[i].target)
                && naming(links[i].link) == Naming::Content,
    ensures
        sound_output(base, links_settled(o, links, rounds)),
    decreases rounds,
{
    if rounds > 0 {
        lemma_links_sound(base, o, links);
        lemma_settled_sound(base, links_emitted(o, links), links, (rounds - 1) as nat);
    }
}

/// A sequence that was sorted holds nothing that it did not hold before.
pub proof fn lemma_sorted_contains<T>(s: Seq<T>, key: spec_fn(T) -> int, i: int)
    requires
        0 <= i < sorted_by(s, key).len(),
    ensures
        s.contains(sorted_by(s, key)[i]),
{
    law_sorted(s, key);
    broadcast use vstd::seq_lib::group_to_multiset_ensures;

    let t = sorted_by(s, key);
    assert(t.to_multiset().count(t[i]) > 0);
    assert(s.to_multiset().count(t[i]) > 0);
}

/// Every hard link in the output comes after its target, and nothing in the
/// output is a whiteout or the root.
pub proof fn law_hard_links_follow_their_targets(order: Seq<LayerView>, i: int)
    requires
        layers_merged(fresh_run(), order) is Ok,
        forall|k: int| 0 <= k < order.len() ==> whole_headers(#[trigger] order[k]),
        0 <= i < merged_log(order).len(),
    ensures
        target_precedes(merged_log(order), i),
        naming(merged_log(order)[i].path()) == Naming::Content,
{
    let run = layers_merged(fresh_run(), order)->Ok_0;
    law_layers_write_each_path_once(order);
    lemma_layers_whole(order);
    let o = Output { emitted: run.state.emitted, log: Seq::empty() };
    assert(run.log + o.log =~= run.log);
    assert(sound_output(run.log, o)) by {
        reveal(sound_output);
        assert forall|k: int| 0 <= k < run.log.len() implies target_precedes(run.log, k) && naming(
            (#[trigger] run.log[k]).path(),
        ) == Naming::Content by {
            assert(plain_content(run.log[k]));
        }
    }
    let promotions = promotions_by_layer(run.state.links.promotions);
    assert forall|k: int| 0 <= k < promotions.len() implies naming(
        (#[trigger] promotions[k]).link,
    ) == Naming::Content && (promotions[k].file matches Some(f) ==> f.0.block.len() == 512) by {
        lemma_sorted_contains(
            run.state.links.promotions,
            |p: PromotionView| p.layer as int,
            k,
        );
        let j = choose|j: int|
            0 <= j < run.state.links.promotions.len() && run.state.links.promotions[j]
                == promotions[k];
        assert(run.state.links.promotions[j] == promotions[k]);
    }
    lemma_groups_sound(run.log, o, promotions, promotion_targets(promotions));
    let links = links_by_layer(run.state.links.deferred);
    assert forall|k: int| 0 <= k < links.len() implies keeps_target(
        (#[trigger] links[k]).header,
        links[k].target,
    ) && naming(links[k].link) == Naming::Content by {
        lemma_sorted_contains(run.state.links.deferred, |l: LinkView| l.layer as int, k);
        let j = choose|j: int|
            0 <= j < run.state.links.deferred.len() && run.state.links.deferred[j] == links[k];
        assert(run.state.links.deferred[j] == links[k]);
    }
    lemma_settled_sound(
        run.log,
        groups_emitted(o, promotions, promotion_targets(promotions)),
        links,
        run.state.links.deferred.len(),
    );
    assert(target_precedes(merged_log(order), i) && naming(merged_log(order)[i].path())
        == Naming::Content) by {
        reveal(sound_output);
    }
}

/// A promotion, once recorded, stays as it is, but for the content that it
/// waits for, and content that it has stays.
pub proof fn law_promotions_are_kept(run: Run, entries: Seq<EntryView>, layer: nat, i: int)
    requires
        steps(run, entries, layer) is Ok,
        0 <= i < run.state.links.promotions.len(),
    ensures
        ({
            let was = run.state.links.promotions[i];
            let after = steps(run, entries, layer)->Ok_0.state.links.promotions;
            &&& i < after.len()
            &&& after[i].link == was.link
            &&& after[i].target == was.target
            &&& after[i].layer == was.layer
            &&& was.file is Some ==> after[i].file == was.file
        }),
    decreases entries.len(),
{
    if entries.len() > 0 {
        law_promotions_are_kept(run, entries.drop_last(), layer, i);
    }
}

/// The content of a removed file reaches every hard link to it that waits: once
/// the file comes by in an older layer, each such link has content.
pub proof fn law_removed_content_reaches_links(
    run: Run,
    entries: Seq<EntryView>,
    layer: nat,
    n: int,
    i: int,
)
    requires
        steps(run, entries, layer) is Ok,
        0 <= n < entries.len(),
        0 <= i < run.state.links.promotions.len(),
        naming(clean_path(entries[n].path)) == Naming::Content,
        suppressed(run.state.marks, names(clean_path(entries[n].path)), layer),
        entry_type_of(entries[n].header[156]) == EntryType::Regular || entry_type_of(
            entries[n].header[156],
        ) == EntryType::Continuous,
        path_key(run.state.links.promotions[i].target) == path_key(clean_path(entries[n].path)),
    ensures
        steps(run, entries, layer)->Ok_0.state.links.promotions[i].file is Some,
    decreases entries.len(),
{
    let rest = entries.drop_last();
    law_promotions_are_kept(run, rest, layer, i);
    if n < rest.len() {
        law_removed_content_reaches_links(run, rest, layer, n, i);
        law_promotions_are_kept(run, entries, layer, i);
    } else {
        law_own_whiteouts_spare_the_layer(run, rest, layer, names(clean_path(entries[n].path)));
    }
}

// ── Promotions ──────────────────────────────────────────────────────────────

proof fn lemma_followers(o: Output, group: Seq<PromotionView>, leader: PromotionView)
    ensures
        o.log.is_prefix_of(followers_emitted(o, group, leader).log),
        o.emitted.subset_of(followers_emitted(o, group, leader).emitted),
        forall|i: int|
            0 <= i < group.len() ==> followers_emitted(o, group, leader).emitted.contains(
                path_key((#[trigger] group[i]).link),
            ),
        forall|k: int|
            o.log.len() <= k < followers_emitted(o, group, leader).log.len() ==> is_link_to(
                #[trigger] followers_emitted(o, group, leader).log[k],
                leader.link,
            ),
    decreases group.len(),
{
    let after = followers_emitted(o, group, leader);
    if group.len() > 0 {
        lemma_followers(o, group.drop_last(), leader);
        let before = followers_emitted(o, group.drop_last(), leader);
        assert forall|i: int| 0 <= i < group.len() implies after.emitted.contains(
            path_key((#[trigger] group[i]).link),
        ) by {
            if i < group.len() - 1 {
                assert(group.drop_last()[i] == group[i]);
            }
        }
        assert(o.log =~= after.log.subrange(0, o.log.len() as int)) by {
            assert(o.log =~= before.log.subrange(0, o.log.len() as int));
            assert forall|i: int| 0 <= i < o.log.len() implies o.log[i] == after.log[i] by {
                assert(o.log[i] == before.log.subrange(0, o.log.len() as int)[i]);
            }
        }
        assert forall|k: int| o.log.len() <= k < after.log.len() implies is_link_to(
            #[trigger] after.log[k],
            leader.link,
        ) by {
            if k < before.log.len() {
                assert(after.log[k] == before.log[k]);
            }
        }
    } else {
        assert(o.log =~= after.log.subrange(0, o.log.len() as int));
    }
}

/// Whether an emission is a hard link made to point at `target`.
pub open spec fn is_link_to(e: EmissionView, target: Seq<char>) -> bool {
    e matches EmissionView::HardLink { target: t, .. } && t == target
}

/// Hard links to one removed file become one file again: the oldest that can is
/// written as a regular file with the removed file's metadata and content, every
/// other one is written as a hard link to it, unless its path has been written
/// already, and in the end all of them are in the output. If the content is in
/// no layer, or all their paths have been written, nothing is.
pub proof fn law_promoted_links_share_a_file(o: Output, group: Seq<PromotionView>)
    ensures
        0 <= leader_of(group, o.emitted) <= group.len(),
        forall|i: int|
            0 <= i < leader_of(group, o.emitted) ==> !can_lead(#[trigger] group[i], o.emitted),
        leader_of(group, o.emitted) == group.len() ==> group_emitted(o, group) == o,
        leader_of(group, o.emitted) < group.len() ==> {
            let leader = group[leader_of(group, o.emitted)];
            let after = group_emitted(o, group);
            &&& leader.file matches Some(file) && after.log.len() > o.log.len()
                && after.log[o.log.len() as int] == (EmissionView::Entry {
                header: as_regular(file.0),
                path: leader.link,
                data: file.1,
            })
            &&& o.log.is_prefix_of(after.log)
            &&& forall|k: int|
                o.log.len() < k < after.log.len() ==> is_link_to(
                    #[trigger] after.log[k],
                    leader.link,
                )
            &&& forall|i: int|
                0 <= i < group.len() ==> after.emitted.contains(
                    path_key((#[trigger] group[i]).link),
                )
        },
{
    lemma_leader_leads(group, o.emitted);
    lemma_before_leader(group, o.emitted);
    let i = leader_of(group, o.emitted);
    if i < group.len() {
        let leader = group[i];
        let file = leader.file->Some_0;
        let e = EmissionView::Entry { header: as_regular(file.0), path: leader.link, data: file.1 };
        let led = emit(o, e);
        lemma_followers(led, group, leader);
        let after = group_emitted(o, group);
        assert(after.log.subrange(0, led.log.len() as int)[o.log.len() as int] == e);
        assert(o.log =~= after.log.subrange(0, o.log.len() as int)) by {
            assert forall|k: int| 0 <= k < o.log.len() implies o.log[k] == after.log[k] by {
                assert(led.log[k] == after.log.subrange(0, led.log.len() as int)[k]);
            }
        }
    }
}

proof fn lemma_before_leader(group: Seq<PromotionView>, emitted: Set<Seq<char>>)
    ensures
        forall|i: int|
            0 <= i < leader_of(group, emitted) ==> !can_lead(#[trigger] group[i], emitted),
    decreases group.len(),
{
    if group.len() > 0 && !can_lead(group[0], emitted) {
        lemma_leader_leads(group, emitted);
        lemma_before_leader(group.drop_first(), emitted);
        assert forall|i: int| 0 <= i < leader_of(group, emitted) implies !can_lead(
            #[trigger] group[i],
            emitted,
        ) by {
            if i > 0 {
                assert(group.drop_first()[i - 1] == group[i]);
            }
        }
    }
}

/// Whether what has been written behind `base` repeats no path, and exactly the
/// paths that have been written are known to be.
pub open spec fn no_repetition(base: Seq<EmissionView>, o: Output) -> bool {
    &&& each_path_once(base + o.log)
    &&& forall|key: Seq<char>| #[trigger] o.emitted.contains(key) <==> logged(base + o.log, key)
}

proof fn lemma_emit_once(base: Seq<EmissionView>, o: Output, e: EmissionView)
    requires
        no_repetition(base, o),
        !o.emitted.contains(path_key(e.path())),
    ensures
        no_repetition(base, emit(o, e)),
{
    let log = base + o.log;
    let after = emit(o, e);
    let next = base + after.log;
    assert(next =~= log.push(e));
    assert forall|key: Seq<char>| #[trigger] after.emitted.contains(key) <==> logged(next, key) by {
        lemma_logged_push(log, e, key);
    }
    assert forall|i: int, j: int| 0 <= i < j < next.len() implies path_key(
        (#[trigger] next[i]).path(),
    ) != path_key((#[trigger] next[j]).path()) by {
        assert(next[i] == log[i]);
        if j < log.len() {
            assert(next[j] == log[j]);
        } else if path_key(log[i].path()) == path_key(e.path()) {
            assert(logged(log, path_key(e.path())));
        }
    }
}

proof fn lemma_followers_once(
    base: Seq<EmissionView>,
    o: Output,
    group: Seq<PromotionView>,
    leader: PromotionView,
)
    requires
        no_repetition(base, o),
    ensures
        no_repetition(base, followers_emitted(o, group, leader)),
    decreases group.len(),
{
    if group.len() > 0 {
        lemma_followers_once(base, o, group.drop_last(), leader);
        let before = followers_emitted(o, group.drop_last(), leader);
        let p = group.last();
        if !before.emitted.contains(path_key(p.link)) {
            lemma_emit_once(
                base,
                before,
                EmissionView::HardLink {
                    header: match p.file {
                        Some(f) => f.0,
                        None => leader.file->Some_0.0,
                    },
                    link: p.link,
                    target: leader.link,
                },
            );
        }
    }
}

/// A promoted hard link never takes the place of something that has been
/// written.
pub proof fn law_promotions_repeat_no_path(
    base: Seq<EmissionView>,
    o: Output,
    promotions: Seq<PromotionView>,
    targets: Seq<Seq<char>>,
)
    requires
        no_repetition(base, o),
    ensures
        no_repetition(base, groups_emitted(o, promotions, targets)),
    decreases targets.len(),
{
    if targets.len() > 0 {
        law_promotions_repeat_no_path(base, o, promotions, targets.drop_last());
        let before = groups_emitted(o, promotions, targets.drop_last());
        let group = group_of(promotions, targets.last());
        let i = leader_of(group, before.emitted);
        lemma_leader_leads(group, before.emitted);
        if i < group.len() {
            let file = group[i].file->Some_0;
            let e = EmissionView::Entry {
                header: as_regular(file.0),
                path: group[i].link,
                data: file.1,
            };
            lemma_emit_once(base, before, e);
            lemma_followers_once(base, emit(before, e), group, group[i]);
        }
    }
}

proof fn lemma_links_once(base: Seq<EmissionView>, o: Output, links: Seq<LinkView>)
    requires
        no_repetition(base, o),
    ensures
        no_repetition(base, links_emitted(o, links)),
    decreases links.len(),
{
    if links.len() > 0 {
        lemma_links_once(base, o, links.drop_last());
        let before = links_emitted(o, links.drop_last());
        let l = links.last();
        if before.emitted.contains(path_key(l.target)) && !before.emitted.contains(
            path_key(l.link),
        ) {
            lemma_emit_once(base, before, link_emission(l));
        }
    }
}

/// A deferred link as it is written.
pub open spec fn link_emission(l: LinkView) -> EmissionView {
    EmissionView::Entry { header: l.header, path: l.link, data: Seq::empty() }
}

proof fn lemma_settled_once(base: Seq<EmissionView>, o: Output, links: Seq<LinkView>, rounds: nat)
    requires
        no_repetition(base, o),
    ensures
        no_repetition(base, links_settled(o, links, rounds)),
    decreases rounds,
{
    if rounds > 0 {
        lemma_links_once(base, o, links);
        lemma_settled_once(base, links_emitted(o, links), links, (rounds - 1) as nat);
    }
}

/// The output after the promotions.
spec fn promoted_output(st: MergeView) -> Output {
    let promotions = promotions_by_layer(st.links.promotions);
    groups_emitted(
        Output { emitted: st.emitted, log: Seq::empty() },
        promotions,
        promotion_targets(promotions),
    )
}

proof fn lemma_output_once(run: Run)
    requires
        sound_run(run),
    ensures
        no_repetition(run.log, promoted_output(run.state)),
        no_repetition(run.log, deferred_output(run.state)),
{
    let promotions = promotions_by_layer(run.state.links.promotions);
    let o = Output { emitted: run.state.emitted, log: Seq::empty() };
    assert(run.log + o.log =~= run.log);
    law_promotions_repeat_no_path(run.log, o, promotions, promotion_targets(promotions));
    lemma_settled_once(
        run.log,
        promoted_output(run.state),
        links_by_layer(run.state.links.deferred),
        run.state.links.deferred.len(),
    );
}

/// No path is in the merged archive twice: of every path the newest version is
/// written, be it content, a hard link or a promoted file.
pub proof fn law_each_path_is_written_once(order: Seq<LayerView>)
    ensures
        each_path_once(merged_log(order)),
{
    if layers_merged(fresh_run(), order) is Ok {
        law_layers_write_each_path_once(order);
        lemma_output_once(layers_merged(fresh_run(), order)->Ok_0);
    }
}

// ── Links that are written ──────────────────────────────────────────────────

/// How many of the links are not written.
spec fn unwritten(emitted: Set<Seq<char>>, links: Seq<LinkView>) -> nat
    decreases links.len(),
{
    if links.len() == 0 {
        0
    } else {
        unwritten(emitted, links.drop_last()) + if emitted.contains(path_key(links.last().link)) {
            0nat
        } else {
            1nat
        }
    }
}

proof fn lemma_unwritten(a: Set<Seq<char>>, b: Set<Seq<char>>, links: Seq<LinkView>)
    requires
        a.subset_of(b),
    ensures
        unwritten(b, links) <= unwritten(a, links) <= links.len(),
    decreases links.len(),
{
    if links.len() > 0 {
        lemma_unwritten(a, b, links.drop_last());
    }
}

/// What a round writes is no longer unwritten.
proof fn lemma_round(o: Output, links: Seq<LinkView>)
    ensures
        o.emitted.subset_of(links_emitted(o, links).emitted),
        links_emitted(o, links).log.len() - o.log.len() <= unwritten(o.emitted, links) - unwritten(
            links_emitted(o, links).emitted,
            links,
        ),
    decreases links.len(),
{
    if links.len() > 0 {
        let rest = links.drop_last();
        lemma_round(o, rest);
        let before = links_emitted(o, rest);
        let after = links_emitted(o, links);
        lemma_unwritten(before.emitted, after.emitted, rest);
    }
}

/// Whether every link whose target has been written has been written.
pub open spec fn nothing_waits(emitted: Set<Seq<char>>, links: Seq<LinkView>) -> bool {
    forall|i: int|
        0 <= i < links.len() && emitted.contains(path_key((#[trigger] links[i]).target))
            ==> emitted.contains(path_key(links[i].link))
}

proof fn lemma_idle_round_closes(o: Output, links: Seq<LinkView>)
    requires
        links_emitted(o, links) == o,
    ensures
        nothing_waits(o.emitted, links),
    decreases links.len(),
{
    if links.len() > 0 {
        let rest = links.drop_last();
        let before = links_emitted(o, rest);
        lemma_idle_round(o, rest);
        lemma_idle_round_closes(o, rest);
        assert forall|i: int|
            0 <= i < links.len() && o.emitted.contains(
                path_key((#[trigger] links[i]).target),
            ) implies o.emitted.contains(path_key(links[i].link)) by {
            if i < rest.len() {
                assert(rest[i] == links[i]);
            }
        }
    }
}

proof fn lemma_settled(o: Output, links: Seq<LinkView>, rounds: nat)
    requires
        unwritten(o.emitted, links) <= rounds,
    ensures
        o.emitted.subset_of(links_settled(o, links, rounds).emitted),
        nothing_waits(links_settled(o, links, rounds).emitted, links),
    decreases rounds,
{
    let next = links_emitted(o, links);
    lemma_round(o, links);
    lemma_idle_round(o, links);
    if next.log.len() == o.log.len() {
        lemma_idle_round_closes(o, links);
    } else {
        lemma_settled(next, links, (rounds - 1) as nat);
    }
}

/// Whether what has been written at the path of a link is the link.
spec fn links_own_paths(o: Output, links: Seq<LinkView>) -> bool {
    forall|i: int|
        0 <= i < links.len() && o.emitted.contains(path_key((#[trigger] links[i]).link))
            ==> o.log.contains(link_emission(links[i]))
}

spec fn distinct_links(links: Seq<LinkView>) -> bool {
    forall|i: int, j: int|
        0 <= i < links.len() && 0 <= j < links.len() && path_key((#[trigger] links[i]).link)
            == path_key((#[trigger] links[j]).link) ==> links[i] == links[j]
}

proof fn lemma_round_owns(o: Output, links: Seq<LinkView>, n: int)
    requires
        distinct_links(links),
        links_own_paths(o, links),
        0 <= n <= links.len(),
    ensures
        links_own_paths(links_emitted(o, links.take(n)), links),
    decreases n,
{
    if n > 0 {
        lemma_round_owns(o, links, n - 1);
        let part = links.take(n);
        assert(part.drop_last() =~= links.take(n - 1));
        let before = links_emitted(o, part.drop_last());
        let after = links_emitted(o, part);
        let l = links[n - 1];
        assert(part.last() == l);
        assert forall|i: int|
            0 <= i < links.len() && after.emitted.contains(
                path_key((#[trigger] links[i]).link),
            ) implies after.log.contains(link_emission(links[i])) by {
            if before.emitted.contains(path_key(links[i].link)) {
                let k = choose|k: int|
                    0 <= k < before.log.len() && before.log[k] == link_emission(links[i]);
                assert(after.log[k] == link_emission(links[i]));
            } else {
                assert(links[i] == links[n - 1]);
                assert(after.log[before.log.len() as int] == link_emission(links[i]));
            }
        }
    } else {
        assert(links.take(0) =~= Seq::empty());
    }
}

proof fn lemma_settled_owns(o: Output, links: Seq<LinkView>, rounds: nat)
    requires
        distinct_links(links),
        links_own_paths(o, links),
    ensures
        links_own_paths(links_settled(o, links, rounds), links),
    decreases rounds,
{
    if rounds > 0 {
        lemma_round_owns(o, links, links.len() as int);
        assert(links.take(links.len() as int) =~= links);
        lemma_settled_owns(links_emitted(o, links), links, (rounds - 1) as nat);
    }
}

/// What the groups of promotions write are paths of promotions.
proof fn lemma_groups_emit(
    o: Output,
    promotions: Seq<PromotionView>,
    targets: Seq<Seq<char>>,
    key: Seq<char>,
)
    requires
        forall|i: int|
            0 <= i < promotions.len() ==> path_key((#[trigger] promotions[i]).link) != key,
    ensures
        groups_emitted(o, promotions, targets).emitted.contains(key) == o.emitted.contains(key),
    decreases targets.len(),
{
    if targets.len() > 0 {
        lemma_groups_emit(o, promotions, targets.drop_last(), key);
        let before = groups_emitted(o, promotions, targets.drop_last());
        let group = group_of(promotions, targets.last());
        assert forall|i: int| 0 <= i < group.len() implies path_key((#[trigger] group[i]).link)
            != key by {
            lemma_group_members(promotions, targets.last(), i);
            let j = choose|j: int| 0 <= j < promotions.len() && promotions[j] == group[i];
            assert(path_key(promotions[j].link) != key);
        }
        let i = leader_of(group, before.emitted);
        lemma_leader_leads(group, before.emitted);
        if i < group.len() {
            let file = group[i].file->Some_0;
            let led = emit(
                before,
                EmissionView::Entry {
                    header: as_regular(file.0),
                    path: group[i].link,
                    data: file.1,
                },
            );
            lemma_followers_emit(led, group, group[i], key);
        }
    }
}

proof fn lemma_followers_emit(
    o: Output,
    group: Seq<PromotionView>,
    leader: PromotionView,
    key: Seq<char>,
)
    requires
        forall|i: int| 0 <= i < group.len() ==> path_key((#[trigger] group[i]).link) != key,
    ensures
        followers_emitted(o, group, leader).emitted.contains(key) == o.emitted.contains(key),
    decreases group.len(),
{
    if group.len() > 0 {
        lemma_followers_emit(o, group.drop_last(), leader, key);
        assert(path_key(group[group.len() - 1].link) != key);
    }
}

/// What has been sorted holds everything that it held before.
proof fn lemma_sorted_keeps<T>(s: Seq<T>, key: spec_fn(T) -> int, x: T)
    requires
        s.contains(x),
    ensures
        sorted_by(s, key).contains(x),
{
    law_sorted(s, key);
    broadcast use vstd::seq_lib::group_to_multiset_ensures;

    let i = choose|i: int| 0 <= i < s.len() && s[i] == x;
    assert(s.to_multiset().count(s[i]) > 0);
    assert(sorted_by(s, key).to_multiset().count(x) > 0);
}

/// A deferred hard link whose target is in the output is in the output too, at
/// its own path and with its own header.
pub proof fn law_live_links_are_written(order: Seq<LayerView>, i: int)
    requires
        layers_merged(fresh_run(), order) is Ok,
        0 <= i < layers_merged(fresh_run(), order)->Ok_0.state.links.deferred.len(),
        logged(
            merged_log(order),
            path_key(layers_merged(fresh_run(), order)->Ok_0.state.links.deferred[i].target),
        ),
    ensures
        merged_log(order).contains(
            link_emission(layers_merged(fresh_run(), order)->Ok_0.state.links.deferred[i]),
        ),
{
    let run = layers_merged(fresh_run(), order)->Ok_0;
    let st = run.state;
    let all = st.links.deferred;
    let links = links_by_layer(all);
    law_layers_write_each_path_once(order);
    lemma_output_once(run);
    law_sorted(all, |l: LinkView| l.layer as int);
    let promotions = promotions_by_layer(st.links.promotions);
    let o = Output { emitted: st.emitted, log: Seq::empty() };
    let promoted = promoted_output(st);
    let end = deferred_output(st);
    assert forall|a: int, b: int|
        0 <= a < links.len() && 0 <= b < links.len() && path_key((#[trigger] links[a]).link)
            == path_key((#[trigger] links[b]).link) implies links[a] == links[b] by {
        lemma_sorted_contains(all, |l: LinkView| l.layer as int, a);
        lemma_sorted_contains(all, |l: LinkView| l.layer as int, b);
        let x = choose|x: int| 0 <= x < all.len() && all[x] == links[a];
        let y = choose|y: int| 0 <= y < all.len() && all[y] == links[b];
        assert(path_key(all[x].link) == path_key(all[y].link));
    }
    assert forall|a: int|
        0 <= a < links.len() && promoted.emitted.contains(
            path_key((#[trigger] links[a]).link),
        ) implies promoted.log.contains(link_emission(links[a])) by {
        lemma_sorted_contains(all, |l: LinkView| l.layer as int, a);
        let x = choose|x: int| 0 <= x < all.len() && all[x] == links[a];
        let key = path_key(all[x].link);
        assert(waits(st, all[x].link));
        assert forall|b: int| 0 <= b < promotions.len() implies path_key(
            (#[trigger] promotions[b]).link,
        ) != key by {
            lemma_sorted_contains(st.links.promotions, |p: PromotionView| p.layer as int, b);
            let y = choose|y: int|
                0 <= y < st.links.promotions.len() && st.links.promotions[y] == promotions[b];
            assert(path_key(st.links.promotions[y].link) != path_key(all[x].link));
        }
        lemma_groups_emit(o, promotions, promotion_targets(promotions), key);
    }
    lemma_settled_owns(promoted, links, all.len());
    lemma_unwritten(promoted.emitted, promoted.emitted, links);
    lemma_settled(promoted, links, all.len());
    assert(all.contains(all[i]));
    lemma_sorted_keeps(all, |l: LinkView| l.layer as int, all[i]);
    let a = choose|a: int| 0 <= a < links.len() && links[a] == all[i];
    assert(end.emitted.contains(path_key(links[a].target)));
    assert(end.emitted.contains(path_key(links[a].link)));
    let k = choose|k: int| 0 <= k < end.log.len() && end.log[k] == link_emission(links[a]);
    assert(merged_log(order)[run.log.len() + k] == link_emission(all[i]));
}

#[verifier::rlimit(40)]
proof fn lemma_insert_target(keys: Seq<Seq<char>>, t: Seq<char>)
    requires
        in_path_order(keys),
    ensures
        in_path_order(insert_target(keys, t)),
        forall|k: Seq<char>| #[trigger]
            has_target(insert_target(keys, t), k) <==> has_target(keys, k) || same_path(t, k),
        forall|m: Seq<char>|
            (forall|i: int| 0 <= i < keys.len() ==> path_less(m, #[trigger] keys[i])) && path_less(
                m,
                t,
            ) ==> forall|i: int|
                0 <= i < insert_target(keys, t).len() ==> path_less(
                    m,
                    #[trigger] insert_target(keys, t)[i],
                ),
    decreases keys.len(),
{
    let after = insert_target(keys, t);
    if keys.len() == 0 {
        assert forall|k: Seq<char>| #[trigger] has_target(after, k) <==> has_target(keys, k)
            || same_path(t, k) by {
            if same_path(t, k) {
                assert(same_path(after[0], k));
            }
        }
    } else if same_path(keys[0], t) {
        assert forall|k: Seq<char>| #[trigger] has_target(after, k) <==> has_target(keys, k)
            || same_path(t, k) by {
            if same_path(t, k) {
                assert(same_path(keys[0], k));
            }
        }
    } else if path_less(t, keys[0]) {
        assert forall|i: int, j: int| 0 <= i < j < after.len() implies path_less(
            #[trigger] after[i],
            #[trigger] after[j],
        ) by {
            assert(after[j] == keys[j - 1]);
            if i > 0 {
                assert(after[i] == keys[i - 1]);
            } else if j > 1 {
                assert(path_less(keys[0], keys[j - 1]));
                law_path_order_transitive(t, keys[0], keys[j - 1]);
            }
        }
        assert forall|k: Seq<char>| #[trigger] has_target(after, k) <==> has_target(keys, k)
            || same_path(t, k) by {
            if same_path(t, k) {
                assert(same_path(after[0], k));
            }
            if has_target(keys, k) {
                let i = choose|i: int| 0 <= i < keys.len() && same_path(#[trigger] keys[i], k);
                assert(same_path(after[i + 1], k));
            }
            if has_target(after, k) && !same_path(t, k) {
                let i = choose|i: int| 0 <= i < after.len() && same_path(#[trigger] after[i], k);
                assert(same_path(keys[i - 1], k));
            }
        }
    } else {
        let rest = keys.drop_first();
        law_path_order_total(keys[0], t);
        assert(path_less(keys[0], t));
        assert(in_path_order(rest)) by {
            assert forall|i: int, j: int| 0 <= i < j < rest.len() implies path_less(
                #[trigger] rest[i],
                #[trigger] rest[j],
            ) by {
                assert(path_less(keys[i + 1], keys[j + 1]));
            }
        }
        lemma_insert_target(rest, t);
        let tail = insert_target(rest, t);
        assert forall|i: int| 0 <= i < rest.len() implies path_less(keys[0], #[trigger] rest[i]) by {
            assert(path_less(keys[0], keys[i + 1]));
        }
        assert forall|i: int, j: int| 0 <= i < j < after.len() implies path_less(
            #[trigger] after[i],
            #[trigger] after[j],
        ) by {
            assert(after[j] == tail[j - 1]);
            if i > 0 {
                assert(after[i] == tail[i - 1]);
            }
        }
        assert forall|k: Seq<char>| #[trigger] has_target(after, k) <==> has_target(keys, k)
            || same_path(t, k) by {
            assert(has_target(tail, k) <==> has_target(rest, k) || same_path(t, k));
            if has_target(tail, k) {
                let i = choose|i: int| 0 <= i < tail.len() && same_path(#[trigger] tail[i], k);
                assert(same_path(after[i + 1], k));
            }
            if has_target(rest, k) {
                let i = choose|i: int| 0 <= i < rest.len() && same_path(#[trigger] rest[i], k);
                assert(same_path(keys[i + 1], k));
            }
            if has_target(keys, k) {
                let i = choose|i: int| 0 <= i < keys.len() && same_path(#[trigger] keys[i], k);
                if i > 0 {
                    assert(same_path(rest[i - 1], k));
                } else {
                    assert(same_path(after[0], k));
                }
            }
            if has_target(after, k) {
                let i = choose|i: int| 0 <= i < after.len() && same_path(#[trigger] after[i], k);
                if i > 0 {
                    assert(same_path(tail[i - 1], k));
                } else {
                    assert(same_path(keys[0], k));
                }
            }
        }
        assert forall|m: Seq<char>|
            (forall|i: int| 0 <= i < keys.len() ==> path_less(m, #[trigger] keys[i])) && path_less(
                m,
                t,
            ) implies forall|i: int|
            0 <= i < after.len() ==> path_less(m, #[trigger] after[i]) by {
            assert forall|i: int| 0 <= i < rest.len() implies path_less(m, #[trigger] rest[i]) by {
                assert(path_less(m, keys[i + 1]));
            }
            assert forall|i: int| 0 <= i < after.len() implies path_less(
                m,
                #[trigger] after[i],
            ) by {
                if i > 0 {
                    assert(after[i] == tail[i - 1]);
                } else {
                    assert(path_less(m, keys[0]));
                }
            }
        }
    }
}

/// Whether paths stand in their order, and each once.
pub open spec fn in_path_order(keys: Seq<Seq<char>>) -> bool {
    forall|i: int, j: int|
        0 <= i < j < keys.len() ==> path_less(#[trigger] keys[i], #[trigger] keys[j])
}

/// Whether a path is among `keys`.
pub open spec fn has_target(keys: Seq<Seq<char>>, k: Seq<char>) -> bool {
    exists|i: int| 0 <= i < keys.len() && same_path(#[trigger] keys[i], k)
}

/// Promotions are written by target, in the order of paths, and every target has
/// its turn once.
pub proof fn law_targets_in_path_order(p: Seq<PromotionView>, i: int)
    ensures
        in_path_order(promotion_targets(p)),
        0 <= i < p.len() ==> has_target(promotion_targets(p), p[i].target),
    decreases p.len(),
{
    if p.len() > 0 {
        law_targets_in_path_order(p.drop_last(), i);
        let before = promotion_targets(p.drop_last());
        lemma_insert_target(before, p.last().target);
        if 0 <= i < p.len() {
            assert(has_target(promotion_targets(p), p[i].target) <==> has_target(
                before,
                p[i].target,
            ) || same_path(p.last().target, p[i].target));
        }
    }
}

proof fn lemma_group_holds(p: Seq<PromotionView>, target: Seq<char>, i: int)
    requires
        0 <= i < p.len(),
        path_key(p[i].target) == path_key(target),
    ensures
        group_of(p, target).contains(p[i]),
    decreases p.len(),
{
    let group = group_of(p, target);
    if i < p.len() - 1 {
        lemma_group_holds(p.drop_last(), target, i);
        let rest = group_of(p.drop_last(), target);
        let k = choose|k: int| 0 <= k < rest.len() && rest[k] == p[i];
        assert(group[k] == p[i]);
    } else {
        assert(group.last() == p[i]);
        assert(group[group.len() - 1] == p[i]);
    }
}

proof fn lemma_groups_grow(
    o: Output,
    promotions: Seq<PromotionView>,
    targets: Seq<Seq<char>>,
    n: int,
    key: Seq<char>,
)
    requires
        0 <= n <= targets.len(),
        groups_emitted(o, promotions, targets.take(n)).emitted.contains(key),
    ensures
        groups_emitted(o, promotions, targets).emitted.contains(key),
    decreases targets.len(),
{
    if n == targets.len() {
        assert(targets.take(n) =~= targets);
    } else {
        let rest = targets.drop_last();
        assert(rest.take(n) =~= targets.take(n));
        lemma_groups_grow(o, promotions, rest, n, key);
        let before = groups_emitted(o, promotions, rest);
        let group = group_of(promotions, targets.last());
        let i = leader_of(group, before.emitted);
        lemma_leader_leads(group, before.emitted);
        if i < group.len() {
            let file = group[i].file->Some_0;
            let e = EmissionView::Entry {
                header: as_regular(file.0),
                path: group[i].link,
                data: file.1,
            };
            lemma_followers(emit(before, e), group, group[i]);
        }
    }
}

/// Every promotion that has content is written, behind what the layers wrote and
/// at its own path, which nothing else takes.
pub proof fn law_promoted_links_are_written(order: Seq<LayerView>, i: int)
    requires
        layers_merged(fresh_run(), order) is Ok,
        0 <= i < layers_merged(fresh_run(), order)->Ok_0.state.links.promotions.len(),
        layers_merged(fresh_run(), order)->Ok_0.state.links.promotions[i].file is Some,
    ensures
        exists|k: int|
            layers_merged(fresh_run(), order)->Ok_0.log.len() <= k < merged_log(order).len()
                && path_key((#[trigger] merged_log(order)[k]).path()) == path_key(
                layers_merged(fresh_run(), order)->Ok_0.state.links.promotions[i].link,
            ),
{
    let run = layers_merged(fresh_run(), order)->Ok_0;
    let st = run.state;
    let promo = st.links.promotions[i];
    let key = path_key(promo.link);
    law_layers_write_each_path_once(order);
    lemma_output_once(run);
    assert(waits(st, promo.link));
    let promotions = promotions_by_layer(st.links.promotions);
    assert(st.links.promotions.contains(promo));
    lemma_sorted_keeps(st.links.promotions, |p: PromotionView| p.layer as int, promo);
    let a = choose|a: int| 0 <= a < promotions.len() && promotions[a] == promo;
    let targets = promotion_targets(promotions);
    law_targets_in_path_order(promotions, a);
    let n = choose|n: int| 0 <= n < targets.len() && same_path(#[trigger] targets[n], promo.target);
    law_key_identifies_path(targets[n], promo.target);
    let group = group_of(promotions, targets[n]);
    lemma_group_holds(promotions, targets[n], a);
    let m = choose|m: int| 0 <= m < group.len() && group[m] == promo;
    let o = Output { emitted: st.emitted, log: Seq::empty() };
    let part = targets.take(n + 1);
    assert(part.drop_last() =~= targets.take(n));
    let before = groups_emitted(o, promotions, part.drop_last());
    law_promoted_links_share_a_file(before, group);
    assert(groups_emitted(o, promotions, part).emitted.contains(key)) by {
        if leader_of(group, before.emitted) == group.len() {
            assert(!can_lead(group[m], before.emitted));
        } else {
            assert(path_key(group[m].link) == key);
        }
    }
    lemma_groups_grow(o, promotions, targets, n + 1, key);
    let promoted = promoted_output(st);
    let links = links_by_layer(st.links.deferred);
    law_sorted(st.links.deferred, |l: LinkView| l.layer as int);
    lemma_unwritten(promoted.emitted, promoted.emitted, links);
    lemma_settled(promoted, links, st.links.deferred.len());
    let log = merged_log(order);
    assert(logged(log, key));
    let k = choose|k: int| 0 <= k < log.len() && path_key((#[trigger] log[k]).path()) == key;
    if k < run.log.len() {
        assert(log[k] == run.log[k]);
        assert(logged(run.log, key));
    }
}

proof fn lemma_group_ascends(p: Seq<PromotionView>, target: Seq<char>)
    requires
        ascending(p, |x: PromotionView| x.layer as int),
    ensures
        ascending(group_of(p, target), |x: PromotionView| x.layer as int),
    decreases p.len(),
{
    let key = |x: PromotionView| x.layer as int;
    if p.len() > 0 {
        let rest = p.drop_last();
        assert(ascending(rest, key)) by {
            assert forall|i: int, j: int| 0 <= i <= j < rest.len() implies key(
                #[trigger] rest[i],
            ) <= key(#[trigger] rest[j]) by {
                assert(key(p[i]) <= key(p[j]));
            }
        }
        lemma_group_ascends(rest, target);
        let before = group_of(rest, target);
        let group = group_of(p, target);
        assert forall|i: int, j: int| 0 <= i <= j < group.len() implies key(
            #[trigger] group[i],
        ) <= key(#[trigger] group[j]) by {
            if j < before.len() {
                assert(group[i] == before[i] && group[j] == before[j]);
            } else if i < before.len() {
                assert(group[i] == before[i]);
                lemma_group_members(rest, target, i);
                let n = choose|n: int| 0 <= n < rest.len() && rest[n] == before[i];
                assert(p[n] == before[i]);
                assert(key(p[n]) <= key(p[p.len() - 1]));
            }
        }
    }
}

/// In a group of promotions the links of older layers come first, so that the
/// oldest that can becomes the file.
pub proof fn law_groups_start_with_the_oldest(p: Seq<PromotionView>, target: Seq<char>)
    ensures
        ascending(
            group_of(promotions_by_layer(p), target),
            |x: PromotionView| x.layer as int,
        ),
{
    law_sorted(p, |x: PromotionView| x.layer as int);
    lemma_group_ascends(promotions_by_layer(p), target);
}

// ── Arriving layers ─────────────────────────────────────────────────────────

/// Layers that arrive in the given order, all of them.
pub open spec fn all_arrive(layers: Seq<LayerView>) -> Seq<ArrivalView> {
    Seq::new(layers.len(), |i: int| ArrivalView::Layer(layers[i]))
}

/// Whether the indices of layers are those from zero on, each once.
pub open spec fn each_index_once(layers: Seq<LayerView>) -> bool {
    &&& forall|i: int| 0 <= i < layers.len() ==> (#[trigger] layers[i]).index < layers.len()
    &&& forall|i: int, j: int|
        0 <= i < j < layers.len() ==> (#[trigger] layers[i]).index != (#[trigger] layers[j]).index
    &&& forall|x: int| 0 <= x < layers.len() ==> #[trigger] has_index(layers, x)
}

/// Whether one of the layers has the given index.
pub open spec fn has_index(layers: Seq<LayerView>, x: int) -> bool {
    exists|j: int| 0 <= j < layers.len() && (#[trigger] layers[j]).index == x
}

proof fn lemma_same_elements(s: Seq<LayerView>, t: Seq<LayerView>)
    requires
        s.no_duplicates(),
        t.no_duplicates(),
        forall|x: LayerView| s.contains(x) <==> t.contains(x),
    ensures
        s.to_multiset() == t.to_multiset(),
{
    broadcast use vstd::seq_lib::group_to_multiset_ensures;

    s.lemma_multiset_has_no_duplicates();
    t.lemma_multiset_has_no_duplicates();
    assert forall|x: LayerView| s.to_multiset().count(x) == t.to_multiset().count(x) by {
        if s.contains(x) {
            assert(s.to_multiset().count(x) > 0);
            assert(t.to_multiset().count(x) > 0);
            assert(s.to_multiset().contains(x) && t.to_multiset().contains(x));
        } else {
            assert(s.to_multiset().count(x) == 0);
            assert(t.to_multiset().count(x) == 0);
        }
    }
    assert(s.to_multiset() =~= t.to_multiset());
}

/// The order of arrival does not matter: layers that arrive one by one are
/// merged into the same archive as all of them at once.
pub proof fn law_arrival_order_does_not_matter(layers: Seq<LayerView>)
    requires
        layers.len() <= usize::MAX,
        each_index_once(layers),
    ensures
        arrival_order(all_arrive(layers), layers.len()) == newest_first(layers),
        merged_arrivals(all_arrive(layers), layers.len()) == merged_archive(newest_first(layers)),
{
    let total = layers.len();
    let all = all_arrive(layers);
    lemma_good_arrivals(all, total, total);
    let a = arrived_layers(all, total);
    assert forall|i: int| 0 <= i < a.len() implies (#[trigger] a[i]).0 == layers[i].index
        && a[i].1 == layers[i] by {
        assert(layers[i].index < total);
    }
    assert(distinct_arrivals(a, total)) by {
        assert forall|i: int| 0 <= i < a.len() implies (#[trigger] a[i]).0 < total by {
            assert(layers[i].index < total);
        }
        assert forall|i: int, j: int| 0 <= i < j < a.len() implies (#[trigger] a[i]).0 != (
        #[trigger] a[j]).0 by {
            assert(layers[i].index != layers[j].index);
        }
    }
    assert forall|x: int| 0 <= x < total implies #[trigger] index_arrives(a, x) by {
        assert(has_index(layers, x));
        let j = choose|j: int| 0 <= j < layers.len() && (#[trigger] layers[j]).index == x;
        assert(a[j].0 == x);
    }
    law_handed_on_from_the_highest_index_down(a, total);
    let r = released_after(a, total);
    assert forall|i: int| 0 <= i < total implies (#[trigger] r[i]).index == total - 1 - i
        && layers.contains(r[i]) by {
        assert(arrived_as(a, total - 1 - i, r[i]));
        let j = choose|j: int|
            0 <= j < a.len() && (#[trigger] a[j]).0 == total - 1 - i && a[j].1 == r[i];
        assert(layers[j] == r[i]);
    }
    let key = |l: LayerView| -(l.index as int);
    assert(r.no_duplicates());
    assert(layers.no_duplicates()) by {
        assert forall|i: int, j: int|
            0 <= i < layers.len() && 0 <= j < layers.len() && i != j implies layers[i]
            != layers[j] by {
            if i < j {
                assert(layers[i].index != layers[j].index);
            } else {
                assert(layers[j].index != layers[i].index);
            }
        }
    }
    assert forall|x: LayerView| r.contains(x) <==> layers.contains(x) by {
        if layers.contains(x) {
            let j = choose|j: int| 0 <= j < layers.len() && layers[j] == x;
            assert(layers[j].index < total);
            let i = total - 1 - layers[j].index;
            assert(r[i].index == layers[j].index);
            assert(layers.contains(r[i]));
            let k = choose|k: int| 0 <= k < layers.len() && layers[k] == r[i];
            if j < k {
                assert(layers[j].index != layers[k].index);
            } else if k < j {
                assert(layers[k].index != layers[j].index);
            }
            assert(r[i] == x);
        }
    }
    lemma_same_elements(r, layers);
    law_sorted(layers, key);
    lemma_ascending_unique(r, newest_first(layers), key);
}

/// The progress of a merge that succeeds: every layer starts and finishes, one
/// after the other, in the order in which they are merged.
pub proof fn law_progress_reports_every_layer(order: Seq<LayerView>)
    requires
        layers_merged(fresh_run(), order) is Ok,
    ensures
        progress_log(order).len() == 2 * order.len(),
        forall|i: int|
            0 <= i < order.len() ==> progress_log(order)[2 * i] == PackerProgress::LayerStarted(
                (#[trigger] order[i]).index as usize,
            ) && progress_log(order)[2 * i + 1] == PackerProgress::LayerFinished(
                order[i].index as usize,
            ),
    decreases order.len(),
{
    if order.len() > 0 {
        let rest = order.drop_last();
        law_progress_reports_every_layer(rest);
        assert forall|i: int| 0 <= i < order.len() implies progress_log(order)[2 * i]
            == PackerProgress::LayerStarted((#[trigger] order[i]).index as usize)
            && progress_log(order)[2 * i + 1] == PackerProgress::LayerFinished(
            order[i].index as usize,
        ) by {
            if i < rest.len() {
                assert(rest[i] == order[i]);
            }
        }
    }
}

// ── Reading the merged archive ──────────────────────────────────────────────

/// A plain entry of a layer can be read from the merged archive as well as it
/// could be from the layer: at the same names and with the same content.
pub proof fn law_plain_content_is_readable(e: EntryView)
    requires
        captured(e) is Ok,
        heads_plain(e.header, captured(e)->Ok_0.pax, e.data.len()),
        plain_records(captured(e)->Ok_0.pax),
        pax_value(captured(e)->Ok_0.pax, "path"@) matches Some(v) ==> v == e.path,
    ensures
        emission_readable(
            EmissionView::Entry {
                header: captured(e)->Ok_0,
                path: clean_path(e.path),
                data: e.data,
            },
        ),
        names(clean_path(e.path)) == names(lossy_text(e.path)),
{
    law_normalizing_keeps_names(lossy_text(e.path));
}

} // verus!
