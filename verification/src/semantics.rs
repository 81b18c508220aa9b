//! What a merge means in terms of the layers' own entries: which names are
//! markers and what they remove, and where everything that is written comes
//! from.

use crate::archive::{archive_entries, oversized, zeros, EntryView};
use crate::canonical::{
    as_regular, captured, entry_bytes, law_written_entry_is_captured,
    law_written_hardlink_is_captured, link_name_of, type_of, EntryType, HeaderError, HeaderView,
};
use crate::laws::{
    entries_remove, law_entry_hides_what_is_below, law_hard_links_follow_their_targets,
    law_promoted_links_share_a_file, law_removed_content_stays_out, law_whiteout_suppresses, lemma_sorted_contains, removes,
    whole_headers,
};
use crate::layers::{
    compression_of, decoded, law_media_type_names_the_compression, named_compression, Compression,
};
use crate::model::{
    all_written, arrival_order, arrived_layers, clean_path, deferred_output, emission_bytes, emission_readable, emit, file_name,
    followers_emitted, fresh_run, group_emitted, group_of, groups_emitted, is_root, layer_closed, layer_entries,
    layer_merged, layers_merged, leader_of, lemma_good_arrivals, lemma_layers_fault,
    lemma_leader_leads, links_emitted, links_settled, log_bytes, merged_archive, merged_arrivals,
    merged_log, naming, newest_first, parent_names, progress_log, promotion_targets, shows, step, steps,
    ArrivalView, EmissionView, LayerView, MergeFault, Naming, Output, Run,
};
use crate::order::{law_sorted, law_sorted_stable, with_key};
use crate::packer::PackerProgress;
use crate::path::{
    is_absolute, is_component, law_key_identifies_path,
    law_last_component_is_behind_the_separator, law_normalized_is_relative,
    law_normalizing_keeps_names, law_normalizing_takes_off_the_start, names, normals, parts,
    path_key, repeated, same_path,
};
use crate::text::lossy_text;
use crate::tracker::{
    links_by_layer, promotions_by_layer, suppressed, LinkView, PromotionView,
};
use vstd::prelude::*;
use vstd::string::*;
use vstd::utf8::{encode_utf8, encode_utf8_decode_utf8, encode_utf8_valid_utf8};

verus! {

// ── Markers ─────────────────────────────────────────────────────────────────

/// Whether `p` is `name` in the directory `dir`, or alone where `dir` is `None`.
pub open spec fn is_in(p: Seq<char>, dir: Option<Seq<char>>, name: Seq<char>) -> bool {
    match dir {
        Some(d) => p == d.push('/') + name,
        None => p == name,
    }
}

/// The names of a directory, or none where there is none.
pub open spec fn dir_names(dir: Option<Seq<char>>) -> Seq<Seq<char>> {
    match dir {
        Some(d) => names(d),
        None => Seq::empty(),
    }
}

proof fn lemma_last_name(p: Seq<char>, dir: Option<Seq<char>>, name: Seq<char>)
    requires
        is_in(p, dir, name),
        is_component(name),
        name != seq!['.'] && name != seq!['.', '.'],
    ensures
        !is_root(p),
        file_name(p) == name,
        parent_names(p) == dir_names(dir),
{
    match dir {
        Some(d) => {
            law_last_component_is_behind_the_separator(d, name);
            assert(parts(p).last() == name);
            assert(parts(p).drop_last() =~= parts(d));
            assert(parts(p) != seq![seq!['.']]) by {
                assert(seq![seq!['.']].last() == seq!['.']);
            }
        },
        None => {
            law_last_component_is_behind_the_separator(p, name);
            assert(parts(p).last() == name);
            assert(parts(p).drop_last() =~= Seq::empty());
            assert(normals(Seq::<Seq<char>>::empty()) =~= Seq::empty());
            assert(parts(p) != seq![seq!['.']]) by {
                assert(seq![seq!['.']].last() == seq!['.']);
            }
        },
    }
}

/// `.wh.` before a name is a marker that removes exactly that name in the
/// marker's directory, hidden names included.
pub proof fn law_whiteout_removes_the_name_behind_the_mark(
    p: Seq<char>,
    dir: Option<Seq<char>>,
    name: Seq<char>,
)
    requires
        is_component(name),
        name != "."@ && name != ".."@ && name != ".wh..opq"@,
        is_in(p, dir, ".wh."@ + name),
    ensures
        naming(p) == Naming::Whiteout(dir_names(dir).push(name)),
{
    reveal_strlit(".");
    reveal_strlit("..");
    reveal_strlit(".wh.");
    reveal_strlit(".wh..opq");
    reveal_strlit(".wh..wh..opq");
    assert("."@ =~= seq!['.']);
    assert(".."@ =~= seq!['.', '.']);
    let mark = ".wh."@ + name;
    lemma_marked(name);
    lemma_last_name(p, dir, mark);
    assert(mark.skip(4) =~= name);
    assert(".wh."@ =~= mark.subrange(0, 4));
    assert(mark != ".wh..wh..opq"@) by {
        if mark == ".wh..wh..opq"@ {
            assert(name =~= mark.skip(4));
            assert(".wh..opq"@ =~= ".wh..wh..opq"@.skip(4));
        }
    }
}

proof fn lemma_marked(name: Seq<char>)
    requires
        !name.contains('/'),
    ensures
        is_component(".wh."@ + name),
        ".wh."@ + name != seq!['.'],
        ".wh."@ + name != seq!['.', '.'],
{
    reveal_strlit(".wh.");
    let mark = ".wh."@ + name;
    assert(mark.len() >= 4);
    assert(seq!['.'].len() == 1 && seq!['.', '.'].len() == 2);
    assert(!mark.contains('/')) by {
        if mark.contains('/') {
            let i = choose|i: int| 0 <= i < mark.len() && mark[i] == '/';
            if i >= 4 {
                assert(name[i - 4] == '/');
            }
        }
    }
}

/// `.wh.` with nothing behind it that names anything removes the marker's own
/// directory.
pub proof fn law_whiteout_of_no_name_removes_the_directory(
    p: Seq<char>,
    dir: Option<Seq<char>>,
    name: Seq<char>,
)
    requires
        name.len() == 0 || name == "."@ || name == ".."@,
        is_in(p, dir, ".wh."@ + name),
    ensures
        naming(p) == Naming::Whiteout(dir_names(dir)),
{
    reveal_strlit(".");
    reveal_strlit("..");
    reveal_strlit(".wh.");
    reveal_strlit(".wh..wh..opq");
    assert("."@ =~= seq!['.']);
    assert(".."@ =~= seq!['.', '.']);
    let mark = ".wh."@ + name;
    assert(!name.contains('/')) by {
        assert forall|i: int| 0 <= i < name.len() implies name[i] != '/' by {}
    }
    lemma_marked(name);
    lemma_last_name(p, dir, mark);
    assert(mark.skip(4) =~= name);
    assert(".wh."@ =~= mark.subrange(0, 4));
    assert(mark.len() < ".wh..wh..opq"@.len());
}

/// `.wh..wh..opq` is a marker that removes the content of its directory.
pub proof fn law_opaque_whiteout_removes_the_directory(p: Seq<char>, dir: Option<Seq<char>>)
    requires
        is_in(p, dir, ".wh..wh..opq"@),
    ensures
        naming(p) == Naming::Whiteout(dir_names(dir)),
{
    reveal_strlit(".wh.");
    reveal_strlit(".wh..wh..opq");
    let rest = ".wh..wh..opq"@.skip(4);
    assert(!rest.contains('/')) by {
        assert forall|i: int| 0 <= i < rest.len() implies rest[i] != '/' by {}
    }
    assert(".wh..wh..opq"@ =~= ".wh."@ + rest);
    lemma_marked(rest);
    lemma_last_name(p, dir, ".wh..wh..opq"@);
}

/// Every other name is content, and the root is neither.
pub proof fn law_other_names_are_content(p: Seq<char>, dir: Option<Seq<char>>, name: Seq<char>)
    requires
        is_component(name),
        is_in(p, dir, name),
        name != "."@ && name != ".."@,
        !".wh."@.is_prefix_of(name),
    ensures
        naming(p) == Naming::Content,
        naming(Seq::empty()) == Naming::Root,
        naming("."@) == Naming::Root,
{
    reveal_strlit(".");
    reveal_strlit("..");
    reveal_strlit(".wh.");
    reveal_strlit(".wh..wh..opq");
    assert("."@ =~= seq!['.']);
    assert(".."@ =~= seq!['.', '.']);
    lemma_last_name(p, dir, name);
    assert(".wh."@ =~= ".wh..wh..opq"@.subrange(0, 4));
    assert(!seq!['.'].contains('/')) by {
        assert(seq!['.'][0] == '.');
    }
    law_last_component_is_behind_the_separator(p, seq!['.']);
}

/// What a path says is a matter of its components: paths with the same ones say
/// the same, and a path that ends in `..` is content.
pub proof fn law_naming_goes_by_components(p: Seq<char>, q: Seq<char>, dir: Seq<char>)
    requires
        p.len() > 0,
        q.len() > 0,
        same_path(p, q),
    ensures
        naming(p) == naming(q),
        naming(dir.push('/') + ".."@) == Naming::Content,
        naming(".."@) == Naming::Content,
{
    reveal_strlit("..");
    reveal_strlit(".wh.");
    reveal_strlit(".wh..wh..opq");
    let up = ".."@;
    assert(up =~= seq!['.', '.']);
    assert(!up.contains('/')) by {
        assert forall|i: int| 0 <= i < up.len() implies up[i] != '/' by {}
    }
    law_last_component_is_behind_the_separator(dir, up);
    let below = dir.push('/') + up;
    assert(up.len() == 2 && seq!['.'].len() == 1);
    assert(parts(below).last() == up && parts(up).last() == up);
    assert(seq![seq!['.']].last() == seq!['.']);
    assert(file_name(below) =~= Seq::empty());
    assert(file_name(up) =~= Seq::empty());
    assert(!".wh."@.is_prefix_of(Seq::<char>::empty()));
    assert(".wh..wh..opq"@.len() > 0);
}

/// No marker is written: the last name of no path in the output starts with
/// `.wh.`.
pub proof fn law_no_marker_is_written(
    order: Seq<LayerView>,
    i: int,
    dir: Option<Seq<char>>,
    name: Seq<char>,
)
    requires
        layers_merged(fresh_run(), order) is Ok,
        forall|k: int| 0 <= k < order.len() ==> whole_headers(#[trigger] order[k]),
        0 <= i < merged_log(order).len(),
        !name.contains('/'),
    ensures
        !is_in(merged_log(order)[i].path(), dir, ".wh."@ + name),
{
    let p = merged_log(order)[i].path();
    law_hard_links_follow_their_targets(order, i);
    if is_in(p, dir, ".wh."@ + name) {
        reveal_strlit(".wh.");
        let mark = ".wh."@ + name;
        lemma_marked(name);
        lemma_last_name(p, dir, mark);
        assert(".wh."@ =~= mark.subrange(0, 4));
    }
}

/// A whiteout in a newer layer keeps the name behind its mark, and everything
/// below it, of older layers out of the output.
pub proof fn law_whiteout_keeps_older_content_out(
    order: Seq<LayerView>,
    i: int,
    a: int,
    j: int,
    k: int,
    dir: Option<Seq<char>>,
    name: Seq<char>,
)
    requires
        0 <= i < j < order.len(),
        order[i].index > order[j].index,
        0 <= a < layer_entries(order[i]).len(),
        is_component(name),
        name != "."@ && name != ".."@ && name != ".wh..opq"@,
        is_in(clean_path(layer_entries(order[i])[a].path), dir, ".wh."@ + name),
        layers_merged(fresh_run(), order.take(j)) is Ok,
        layers_merged(fresh_run(), order.take(j + 1)) is Ok,
        layers_merged(fresh_run(), order.take(j))->Ok_0.log.len() <= k < layers_merged(
            fresh_run(),
            order.take(j + 1),
        )->Ok_0.log.len(),
    ensures
        !dir_names(dir).push(name).is_prefix_of(
            names(layers_merged(fresh_run(), order.take(j + 1))->Ok_0.log[k].path()),
        ),
{
    let p = dir_names(dir).push(name);
    law_whiteout_removes_the_name_behind_the_mark(
        clean_path(layer_entries(order[i])[a].path),
        dir,
        name,
    );
    assert(removes(layer_entries(order[i])[a], p));
    assert(entries_remove(layer_entries(order[i]), p));
    law_removed_content_stays_out(order, i, j, p, k);
}

/// An opaque whiteout in a newer layer keeps everything below its directory of
/// older layers out of the output.
pub proof fn law_opaque_whiteout_keeps_older_content_out(
    order: Seq<LayerView>,
    i: int,
    a: int,
    j: int,
    k: int,
    dir: Option<Seq<char>>,
)
    requires
        0 <= i < j < order.len(),
        order[i].index > order[j].index,
        0 <= a < layer_entries(order[i]).len(),
        is_in(clean_path(layer_entries(order[i])[a].path), dir, ".wh..wh..opq"@),
        layers_merged(fresh_run(), order.take(j)) is Ok,
        layers_merged(fresh_run(), order.take(j + 1)) is Ok,
        layers_merged(fresh_run(), order.take(j))->Ok_0.log.len() <= k < layers_merged(
            fresh_run(),
            order.take(j + 1),
        )->Ok_0.log.len(),
    ensures
        !dir_names(dir).is_prefix_of(
            names(layers_merged(fresh_run(), order.take(j + 1))->Ok_0.log[k].path()),
        ),
{
    law_opaque_whiteout_removes_the_directory(
        clean_path(layer_entries(order[i])[a].path),
        dir,
    );
    assert(removes(layer_entries(order[i])[a], dir_names(dir)));
    assert(entries_remove(layer_entries(order[i]), dir_names(dir)));
    law_removed_content_stays_out(order, i, j, dir_names(dir), k);
}

// ── Where content comes from ────────────────────────────────────────────────

/// Whether `e` is a file at the given path with this header and content.
pub open spec fn is_file_at(
    e: EntryView,
    path: Seq<char>,
    header: HeaderView,
    data: Seq<u8>,
) -> bool {
    &&& same_path(clean_path(e.path), path)
    &&& captured(e) matches Ok(h) && h == header
    &&& e.data == data
}

/// Whether some of the entries is a file at the given path with this header and
/// content.
pub open spec fn comes_from(
    seen: Seq<EntryView>,
    path: Seq<char>,
    header: HeaderView,
    data: Seq<u8>,
) -> bool {
    exists|i: int| 0 <= i < seen.len() && is_file_at(#[trigger] seen[i], path, header, data)
}

/// Whether `e` is a hard link at the given path to the given target.
pub open spec fn is_link_at(e: EntryView, link: Seq<char>, target: Seq<char>) -> bool {
    &&& same_path(clean_path(e.path), link)
    &&& captured(e) matches Ok(h) && type_of(h) == EntryType::Link && (link_name_of(
        h,
    ) matches Some(raw) && clean_path(raw) == target)
}

/// Whether some of the entries is a hard link at the given path to the given
/// target.
pub open spec fn is_link_among(seen: Seq<EntryView>, link: Seq<char>, target: Seq<char>) -> bool {
    exists|i: int| 0 <= i < seen.len() && is_link_at(#[trigger] seen[i], link, target)
}

/// Whether some of the entries is a hard link at the given path to the given
/// target, with this header.
pub open spec fn is_link_with(
    seen: Seq<EntryView>,
    link: Seq<char>,
    target: Seq<char>,
    header: HeaderView,
) -> bool {
    exists|i: int|
        0 <= i < seen.len() && is_link_at(#[trigger] seen[i], link, target) && captured(seen[i])
            == Ok::<HeaderView, HeaderError>(header)
}

/// Whether everything that a merge has written or keeps comes from the entries,
/// with the path, header and content that it has there.
pub open spec fn all_comes_from(run: Run, seen: Seq<EntryView>) -> bool {
    &&& forall|i: int|
        0 <= i < run.log.len() ==> (#[trigger] run.log[i] matches EmissionView::Entry {
            header,
            path,
            data,
        } && comes_from(seen, path, header, data))
    &&& forall|i: int|
        0 <= i < run.state.links.promotions.len() ==> is_link_among(
            seen,
            (#[trigger] run.state.links.promotions[i]).link,
            run.state.links.promotions[i].target,
        ) && (run.state.links.promotions[i].file matches Some(f) ==> comes_from(
            seen,
            run.state.links.promotions[i].target,
            f.0,
            f.1,
        ))
    &&& forall|i: int|
        0 <= i < run.state.links.deferred.len() ==> is_link_with(
            seen,
            (#[trigger] run.state.links.deferred[i]).link,
            run.state.links.deferred[i].target,
            run.state.links.deferred[i].header,
        )
    &&& forall|p: Seq<char>|
        run.state.links.buffered.contains_key(#[trigger] path_key(p)) ==> comes_from(
            seen,
            p,
            run.state.links.buffered[path_key(p)].0,
            run.state.links.buffered[path_key(p)].1,
        )
}

proof fn lemma_comes_from_more(
    seen: Seq<EntryView>,
    e: EntryView,
    path: Seq<char>,
    header: HeaderView,
    data: Seq<u8>,
)
    ensures
        comes_from(seen, path, header, data) ==> comes_from(seen.push(e), path, header, data),
        is_file_at(e, path, header, data) ==> comes_from(seen.push(e), path, header, data),
{
    let all = seen.push(e);
    if comes_from(seen, path, header, data) {
        let i = choose|i: int|
            0 <= i < seen.len() && is_file_at(#[trigger] seen[i], path, header, data);
        assert(is_file_at(all[i], path, header, data));
    }
    if is_file_at(e, path, header, data) {
        assert(is_file_at(all[seen.len() as int], path, header, data));
    }
}

proof fn lemma_link_among_more(
    seen: Seq<EntryView>,
    e: EntryView,
    link: Seq<char>,
    target: Seq<char>,
    header: HeaderView,
)
    ensures
        is_link_among(seen, link, target) ==> is_link_among(seen.push(e), link, target),
        is_link_with(seen, link, target, header) ==> is_link_with(
            seen.push(e),
            link,
            target,
            header,
        ),
        is_link_at(e, link, target) ==> is_link_among(seen.push(e), link, target),
        is_link_at(e, link, target) && captured(e) == Ok::<HeaderView, HeaderError>(header)
            ==> is_link_with(seen.push(e), link, target, header),
{
    let all = seen.push(e);
    assert(all[seen.len() as int] == e);
    if is_link_among(seen, link, target) {
        let i = choose|i: int|
            0 <= i < seen.len() && is_link_at(#[trigger] seen[i], link, target);
        assert(is_link_at(all[i], link, target));
    }
    if is_link_with(seen, link, target, header) {
        let i = choose|i: int|
            0 <= i < seen.len() && is_link_at(#[trigger] seen[i], link, target) && captured(
                seen[i],
            ) == Ok::<HeaderView, HeaderError>(header);
        assert(is_link_at(all[i], link, target));
    }
}

proof fn lemma_step_comes_from(run: Run, e: EntryView, layer: nat, seen: Seq<EntryView>)
    requires
        all_comes_from(run, seen),
        step(run, e, layer) is Ok,
    ensures
        all_comes_from(step(run, e, layer)->Ok_0, seen.push(e)),
{
    let after = step(run, e, layer)->Ok_0;
    let all = seen.push(e);
    let path = clean_path(e.path);
    assert(all[seen.len() as int] == e);
    assert forall|i: int| 0 <= i < after.log.len() implies (
    #[trigger] after.log[i] matches EmissionView::Entry { header, path, data } && comes_from(
        all,
        path,
        header,
        data,
    )) by {
        if i < run.log.len() {
            assert(after.log[i] == run.log[i]);
            if let EmissionView::Entry { header, path, data } = run.log[i] {
                lemma_comes_from_more(seen, e, path, header, data);
            }
        } else {
            lemma_comes_from_more(seen, e, path, captured(e)->Ok_0, e.data);
        }
    }
    assert forall|i: int| 0 <= i < after.state.links.deferred.len() implies is_link_with(
        all,
        (#[trigger] after.state.links.deferred[i]).link,
        after.state.links.deferred[i].target,
        after.state.links.deferred[i].header,
    ) by {
        let l = after.state.links.deferred[i];
        lemma_link_among_more(seen, e, l.link, l.target, l.header);
        if i < run.state.links.deferred.len() {
            assert(l == run.state.links.deferred[i]);
        }
    }
    assert forall|p: Seq<char>|
        after.state.links.buffered.contains_key(#[trigger] path_key(p)) implies comes_from(
        all,
        p,
        after.state.links.buffered[path_key(p)].0,
        after.state.links.buffered[path_key(p)].1,
    ) by {
        let f = after.state.links.buffered[path_key(p)];
        lemma_comes_from_more(seen, e, p, f.0, f.1);
        law_key_identifies_path(path, p);
    }
    assert forall|i: int| 0 <= i < after.state.links.promotions.len() implies is_link_among(
        all,
        (#[trigger] after.state.links.promotions[i]).link,
        after.state.links.promotions[i].target,
    ) && (after.state.links.promotions[i].file matches Some(f) ==> comes_from(
        all,
        after.state.links.promotions[i].target,
        f.0,
        f.1,
    )) by {
        let now = after.state.links.promotions[i];
        if i < run.state.links.promotions.len() {
            let was = run.state.links.promotions[i];
            assert(now.link == was.link && now.target == was.target);
            lemma_link_among_more(seen, e, was.link, was.target, captured(e)->Ok_0);
            if let Some(f) = now.file {
                lemma_comes_from_more(seen, e, was.target, f.0, f.1);
                law_key_identifies_path(was.target, path);
            }
        } else {
            lemma_link_among_more(seen, e, now.link, now.target, captured(e)->Ok_0);
            if let Some(f) = now.file {
                lemma_comes_from_more(seen, e, now.target, f.0, f.1);
            }
        }
    }
}

proof fn lemma_steps_come_from(
    run: Run,
    entries: Seq<EntryView>,
    layer: nat,
    seen: Seq<EntryView>,
)
    requires
        all_comes_from(run, seen),
        steps(run, entries, layer) is Ok,
    ensures
        all_comes_from(steps(run, entries, layer)->Ok_0, seen + entries),
    decreases entries.len(),
{
    if entries.len() == 0 {
        assert(seen + entries =~= seen);
    } else {
        lemma_steps_come_from(run, entries.drop_last(), layer, seen);
        let mid = steps(run, entries.drop_last(), layer)->Ok_0;
        lemma_step_comes_from(mid, entries.last(), layer, seen + entries.drop_last());
        assert((seen + entries.drop_last()).push(entries.last()) =~= seen + entries);
    }
}

/// The entries of layers, one layer after the other.
pub open spec fn all_entries(order: Seq<LayerView>) -> Seq<EntryView>
    decreases order.len(),
{
    if order.len() == 0 {
        Seq::empty()
    } else {
        all_entries(order.drop_last()) + layer_entries(order.last())
    }
}

proof fn lemma_layers_come_from(order: Seq<LayerView>)
    requires
        layers_merged(fresh_run(), order) is Ok,
    ensures
        all_comes_from(layers_merged(fresh_run(), order)->Ok_0, all_entries(order)),
    decreases order.len(),
{
    if order.len() > 0 {
        lemma_layers_come_from(order.drop_last());
        let before = layers_merged(fresh_run(), order.drop_last())->Ok_0;
        let layer = order.last();
        lemma_steps_come_from(
            before,
            layer_entries(layer),
            layer.index,
            all_entries(order.drop_last()),
        );
    }
}

/// Whether `e` is among the entries of some layer.
pub open spec fn in_a_layer(order: Seq<LayerView>, e: EntryView) -> bool {
    exists|j: int, k: int|
        0 <= j < order.len() && 0 <= k < layer_entries(order[j]).len()
            && #[trigger] layer_entries(order[j])[k] == e
}

proof fn lemma_in_a_layer(order: Seq<LayerView>, i: int)
    requires
        0 <= i < all_entries(order).len(),
    ensures
        in_a_layer(order, all_entries(order)[i]),
    decreases order.len(),
{
    if order.len() > 0 {
        let before = all_entries(order.drop_last());
        let last = order.len() - 1;
        if i < before.len() {
            lemma_in_a_layer(order.drop_last(), i);
            let (j, k) = choose|j: int, k: int|
                0 <= j < order.drop_last().len() && 0 <= k < layer_entries(
                    order.drop_last()[j],
                ).len() && #[trigger] layer_entries(order.drop_last()[j])[k] == before[i];
            assert(order.drop_last()[j] == order[j]);
            assert(layer_entries(order[j])[k] == all_entries(order)[i]);
        } else {
            assert(layer_entries(order[last])[i - before.len()] == all_entries(order)[i]);
        }
    }
}

/// What a layer writes is an entry of a layer, under its own path, with its own
/// header and content.
pub proof fn law_layers_write_their_entries(order: Seq<LayerView>, i: int)
    requires
        layers_merged(fresh_run(), order) is Ok,
        0 <= i < layers_merged(fresh_run(), order)->Ok_0.log.len(),
    ensures
        layers_merged(fresh_run(), order)->Ok_0.log[i] matches EmissionView::Entry {
            header,
            path,
            data,
        } && exists|e: EntryView| #[trigger]
            in_a_layer(order, e) && is_file_at(e, path, header, data),
{
    let seen = all_entries(order);
    lemma_layers_come_from(order);
    if let EmissionView::Entry { header, path, data } = layers_merged(
        fresh_run(),
        order,
    )->Ok_0.log[i] {
        let k = choose|k: int|
            0 <= k < seen.len() && is_file_at(#[trigger] seen[k], path, header, data);
        lemma_in_a_layer(order, k);
    }
}

/// The content of a promotion is that of its own target: an entry of some layer
/// at the same path has this header and content.
pub proof fn law_promoted_content_is_that_of_the_target(order: Seq<LayerView>, i: int)
    requires
        layers_merged(fresh_run(), order) is Ok,
        0 <= i < layers_merged(fresh_run(), order)->Ok_0.state.links.promotions.len(),
        layers_merged(fresh_run(), order)->Ok_0.state.links.promotions[i].file is Some,
    ensures
        exists|e: EntryView| #[trigger]
            in_a_layer(order, e) && is_file_at(
                e,
                layers_merged(fresh_run(), order)->Ok_0.state.links.promotions[i].target,
                layers_merged(fresh_run(), order)->Ok_0.state.links.promotions[i].file->Some_0.0,
                layers_merged(fresh_run(), order)->Ok_0.state.links.promotions[i].file->Some_0.1,
            ),
{
    let seen = all_entries(order);
    lemma_layers_come_from(order);
    let p = layers_merged(fresh_run(), order)->Ok_0.state.links.promotions[i];
    let f = p.file->Some_0;
    let k = choose|k: int|
        0 <= k < seen.len() && is_file_at(#[trigger] seen[k], p.target, f.0, f.1);
    lemma_in_a_layer(order, k);
}

/// An entry at another path than its target leaves a promotion as it was, and so
/// does any entry once it has its content.
pub proof fn law_other_entries_leave_a_promotion(run: Run, e: EntryView, layer: nat, i: int)
    requires
        step(run, e, layer) is Ok,
        0 <= i < run.state.links.promotions.len(),
        !same_path(clean_path(e.path), run.state.links.promotions[i].target)
            || run.state.links.promotions[i].file is Some,
    ensures
        i < step(run, e, layer)->Ok_0.state.links.promotions.len(),
        step(run, e, layer)->Ok_0.state.links.promotions[i] == run.state.links.promotions[i],
{
    law_key_identifies_path(run.state.links.promotions[i].target, clean_path(e.path));
}

// ── Where the whole output comes from ───────────────────────────────────────

/// Whether `e` writes the content of one of the promotions under its own link.
pub open spec fn leads(p: Seq<PromotionView>, e: EmissionView, i: int) -> bool {
    &&& 0 <= i < p.len()
    &&& e matches EmissionView::Entry { header, path, data } && path == p[i].link && (
    p[i].file matches Some(f) && header == as_regular(f.0) && data == f.1)
}

/// Whether `e` links one of the promotions to another of the same target, which
/// has content. Its header is that of its own file, if it has one.
pub open spec fn follows(p: Seq<PromotionView>, e: EmissionView, i: int, j: int) -> bool {
    &&& 0 <= i < p.len()
    &&& 0 <= j < p.len()
    &&& same_path(p[i].target, p[j].target)
    &&& p[j].file is Some
    &&& e matches EmissionView::HardLink { header, link, target } && link == p[i].link && target
        == p[j].link && header == (match p[i].file {
        Some(f) => f.0,
        None => p[j].file->Some_0.0,
    })
}

/// Whether `e` writes a promotion, or links one to another.
pub open spec fn promoted(p: Seq<PromotionView>, e: EmissionView) -> bool {
    ||| exists|i: int| #[trigger] leads(p, e, i)
    ||| exists|i: int, j: int| #[trigger] follows(p, e, i, j)
}

/// Whether everything written so far is a promotion or a link to one.
pub open spec fn all_promoted(p: Seq<PromotionView>, log: Seq<EmissionView>) -> bool {
    forall|k: int| 0 <= k < log.len() ==> promoted(p, #[trigger] log[k])
}

/// Whether `q` is one of the promotions.
spec fn is_one_of(p: Seq<PromotionView>, q: PromotionView) -> bool {
    exists|i: int| 0 <= i < p.len() && #[trigger] p[i] == q
}

proof fn lemma_group_is_part(p: Seq<PromotionView>, target: Seq<char>, i: int)
    requires
        0 <= i < group_of(p, target).len(),
    ensures
        is_one_of(p, group_of(p, target)[i]),
        same_path(group_of(p, target)[i].target, target),
    decreases p.len(),
{
    if p.len() > 0 {
        let before = p.drop_last();
        if i < group_of(before, target).len() {
            lemma_group_is_part(before, target, i);
            let k = choose|k: int|
                0 <= k < before.len() && #[trigger] before[k] == group_of(before, target)[i];
            assert(p[k] == group_of(p, target)[i]);
        } else {
            assert(p[p.len() - 1] == group_of(p, target)[i]);
            law_key_identifies_path(p.last().target, target);
        }
    }
}

proof fn lemma_followers_promoted(
    p: Seq<PromotionView>,
    o: Output,
    group: Seq<PromotionView>,
    leader: PromotionView,
)
    requires
        all_promoted(p, o.log),
        is_one_of(p, leader),
        leader.file is Some,
        forall|i: int|
            0 <= i < group.len() ==> is_one_of(p, #[trigger] group[i]) && same_path(
                group[i].target,
                leader.target,
            ),
    ensures
        all_promoted(p, followers_emitted(o, group, leader).log),
    decreases group.len(),
{
    if group.len() > 0 {
        let rest = group.drop_last();
        assert forall|i: int| 0 <= i < rest.len() implies is_one_of(p, #[trigger] rest[i])
            && same_path(rest[i].target, leader.target) by {
            assert(rest[i] == group[i]);
        }
        lemma_followers_promoted(p, o, rest, leader);
        let before = followers_emitted(o, rest, leader);
        let q = group[group.len() - 1];
        if !before.emitted.contains(path_key(q.link)) {
            let i = choose|i: int| 0 <= i < p.len() && #[trigger] p[i] == q;
            let j = choose|j: int| 0 <= j < p.len() && #[trigger] p[j] == leader;
            let e = followers_emitted(o, group, leader).log.last();
            assert(follows(p, e, i, j));
            assert(promoted(p, e));
        }
    }
}

/// What is written for promotions is the content of one of them under its own
/// link, or a hard link from one to another of the same target.
pub proof fn law_promotions_become_files_and_links(
    o: Output,
    p: Seq<PromotionView>,
    targets: Seq<Seq<char>>,
)
    requires
        all_promoted(p, o.log),
    ensures
        all_promoted(p, groups_emitted(o, p, targets).log),
    decreases targets.len(),
{
    if targets.len() > 0 {
        law_promotions_become_files_and_links(o, p, targets.drop_last());
        let before = groups_emitted(o, p, targets.drop_last());
        let target = targets.last();
        let group = group_of(p, target);
        let n = leader_of(group, before.emitted);
        lemma_leader_leads(group, before.emitted);
        if n < group.len() {
            let leader = group[n];
            lemma_group_is_part(p, target, n);
            let file = leader.file->Some_0;
            let e = EmissionView::Entry {
                header: as_regular(file.0),
                path: leader.link,
                data: file.1,
            };
            let i = choose|i: int| 0 <= i < p.len() && #[trigger] p[i] == leader;
            assert(leads(p, e, i));
            assert(promoted(p, e));
            assert forall|k: int| 0 <= k < group.len() implies is_one_of(p, #[trigger] group[k])
                && same_path(group[k].target, leader.target) by {
                lemma_group_is_part(p, target, k);
            }
            lemma_followers_promoted(p, emit(before, e), group, leader);
        }
    }
}

/// Of the promotions of one target, the first that has content, and whose own
/// path has not been written, is written as a file.
pub proof fn law_first_promotion_with_content_leads(o: Output, group: Seq<PromotionView>, n: int)
    requires
        0 <= n < group.len(),
        group[n].file is Some,
        !o.emitted.contains(path_key(group[n].link)),
        forall|i: int|
            0 <= i < n ==> (#[trigger] group[i]).file is None || o.emitted.contains(
                path_key(group[i].link),
            ),
    ensures
        group_emitted(o, group).log.len() > o.log.len(),
        group_emitted(o, group).log[o.log.len() as int] == (EmissionView::Entry {
            header: as_regular(group[n].file->Some_0.0),
            path: group[n].link,
            data: group[n].file->Some_0.1,
        }),
{
    lemma_leader_is(group, o.emitted, n);
    law_promoted_links_share_a_file(o, group);
}

proof fn lemma_leader_is(group: Seq<PromotionView>, emitted: Set<Seq<char>>, n: int)
    requires
        0 <= n < group.len(),
        group[n].file is Some,
        !emitted.contains(path_key(group[n].link)),
        forall|i: int|
            0 <= i < n ==> (#[trigger] group[i]).file is None || emitted.contains(
                path_key(group[i].link),
            ),
    ensures
        leader_of(group, emitted) == n,
    decreases n,
{
    if n > 0 {
        let rest = group.drop_first();
        assert(group[0].file is None || emitted.contains(path_key(group[0].link)));
        assert forall|i: int| 0 <= i < n - 1 implies (#[trigger] rest[i]).file is None
            || emitted.contains(path_key(rest[i].link)) by {
            assert(rest[i] == group[i + 1]);
        }
        assert(rest[n - 1] == group[n]);
        lemma_leader_is(rest, emitted, n - 1);
    }
}

/// Whether `e` writes one of the links as its layer had it.
pub open spec fn is_one_link(links: Seq<LinkView>, e: EmissionView) -> bool {
    exists|i: int|
        0 <= i < links.len() && e == (EmissionView::Entry {
            header: (#[trigger] links[i]).header,
            path: links[i].link,
            data: Seq::empty(),
        })
}

/// Whether everything behind the first `from` emissions is one of the links.
pub open spec fn all_links(links: Seq<LinkView>, log: Seq<EmissionView>, from: int) -> bool {
    forall|k: int| from <= k < log.len() ==> is_one_link(links, #[trigger] log[k])
}

proof fn lemma_round_writes_links(o: Output, links: Seq<LinkView>, n: int, from: int)
    requires
        0 <= n <= links.len(),
        0 <= from <= o.log.len(),
        all_links(links, o.log, from),
    ensures
        all_links(links, links_emitted(o, links.take(n)).log, from),
        o.log.is_prefix_of(links_emitted(o, links.take(n)).log),
    decreases n,
{
    if n > 0 {
        lemma_round_writes_links(o, links, n - 1, from);
        assert(links.take(n).drop_last() =~= links.take(n - 1));
        let before = links_emitted(o, links.take(n - 1));
        let after = links_emitted(o, links.take(n));
        assert(links.take(n).last() == links[n - 1]);
        assert(is_one_link(
            links,
            EmissionView::Entry {
                header: links[n - 1].header,
                path: links[n - 1].link,
                data: Seq::empty(),
            },
        ));
        assert(o.log =~= after.log.subrange(0, o.log.len() as int));
    } else {
        assert(links.take(0) =~= Seq::empty());
        assert(links_emitted(o, links.take(0)) == o);
        assert(o.log =~= o.log.subrange(0, o.log.len() as int));
    }
}

proof fn lemma_settled_writes_links(o: Output, links: Seq<LinkView>, rounds: nat, from: int)
    requires
        0 <= from <= o.log.len(),
        all_links(links, o.log, from),
    ensures
        all_links(links, links_settled(o, links, rounds).log, from),
        o.log.is_prefix_of(links_settled(o, links, rounds).log),
    decreases rounds,
{
    assert(o.log =~= o.log.subrange(0, o.log.len() as int));
    let next = links_emitted(o, links);
    lemma_round_writes_links(o, links, links.len() as int, from);
    assert(links.take(links.len() as int) =~= links);
    if rounds > 0 && next.log.len() != o.log.len() {
        lemma_settled_writes_links(next, links, (rounds - 1) as nat, from);
        let end = links_settled(o, links, rounds).log;
        assert(o.log =~= end.subrange(0, o.log.len() as int));
    }
}

/// Whether `e` is a file of a layer, as that layer has it.
pub open spec fn is_layer_file(order: Seq<LayerView>, e: EmissionView) -> bool {
    e matches EmissionView::Entry { header, path, data } && exists|entry: EntryView| #[trigger]
        in_a_layer(order, entry) && is_file_at(entry, path, header, data)
}

/// Whether `e` is a hard link of a layer, as that layer has it.
pub open spec fn is_layer_link(order: Seq<LayerView>, e: EmissionView) -> bool {
    e matches EmissionView::Entry { header, path, data } && data.len() == 0 && exists|
        entry: EntryView,
        target: Seq<char>,
    |
        in_a_layer(order, entry) && #[trigger] is_link_at(entry, path, target) && captured(entry)
            == Ok::<HeaderView, HeaderError>(header)
}

/// Whether `e` is a regular file at the path of the hard link `l`, with the
/// content and the header of the file `f`, to which `l` links.
pub open spec fn replaces(e: EmissionView, l: EntryView, f: EntryView, target: Seq<char>) -> bool {
    &&& e matches EmissionView::Entry { header, path, data } && is_link_at(l, path, target) && (
    captured(f) matches Ok(h) && header == as_regular(h) && is_file_at(f, target, h, data))
}

/// Whether `e` stands for a hard link of a layer to a file of a layer.
pub open spec fn is_promoted_file(order: Seq<LayerView>, e: EmissionView) -> bool {
    exists|l: EntryView, f: EntryView, target: Seq<char>|
        in_a_layer(order, l) && in_a_layer(order, f) && #[trigger] replaces(e, l, f, target)
}

/// Whether `e` links the path of the hard link `l` to that of the hard link `m`,
/// where both have the same target, with the header of the file `f` that was
/// there.
pub open spec fn joins(
    e: EmissionView,
    l: EntryView,
    m: EntryView,
    f: EntryView,
    a: Seq<char>,
    b: Seq<char>,
) -> bool {
    &&& e matches EmissionView::HardLink { header, link, target } && is_link_at(l, link, a)
        && is_link_at(m, target, b) && is_file_at(f, a, header, f.data)
    &&& same_path(a, b)
}

/// Whether `e` links a hard link of a layer to another with the same target.
pub open spec fn is_promoted_link(order: Seq<LayerView>, e: EmissionView) -> bool {
    exists|l: EntryView, m: EntryView, f: EntryView, a: Seq<char>, b: Seq<char>|
        in_a_layer(order, l) && in_a_layer(order, m) && in_a_layer(order, f) && #[trigger] joins(
            e,
            l,
            m,
            f,
            a,
            b,
        )
}

proof fn lemma_link_in_a_layer(order: Seq<LayerView>, link: Seq<char>, target: Seq<char>) -> (e:
    EntryView)
    requires
        is_link_among(all_entries(order), link, target),
    ensures
        in_a_layer(order, e),
        is_link_at(e, link, target),
{
    let seen = all_entries(order);
    let k = choose|k: int| 0 <= k < seen.len() && is_link_at(#[trigger] seen[k], link, target);
    lemma_in_a_layer(order, k);
    seen[k]
}

proof fn lemma_file_in_a_layer(
    order: Seq<LayerView>,
    path: Seq<char>,
    header: HeaderView,
    data: Seq<u8>,
) -> (e: EntryView)
    requires
        comes_from(all_entries(order), path, header, data),
    ensures
        in_a_layer(order, e),
        is_file_at(e, path, header, data),
{
    let seen = all_entries(order);
    let k = choose|k: int|
        0 <= k < seen.len() && is_file_at(#[trigger] seen[k], path, header, data);
    lemma_in_a_layer(order, k);
    seen[k]
}

proof fn lemma_promoted_origin(order: Seq<LayerView>, p: Seq<PromotionView>, e: EmissionView)
    requires
        promoted(p, e),
        forall|i: int|
            0 <= i < p.len() ==> is_link_among(
                all_entries(order),
                (#[trigger] p[i]).link,
                p[i].target,
            ) && (p[i].file matches Some(f) ==> comes_from(
                all_entries(order),
                p[i].target,
                f.0,
                f.1,
            )),
    ensures
        is_promoted_file(order, e) || is_promoted_link(order, e),
{
    if exists|i: int| #[trigger] leads(p, e, i) {
        let i = choose|i: int| #[trigger] leads(p, e, i);
        let l = lemma_link_in_a_layer(order, p[i].link, p[i].target);
        let file = p[i].file->Some_0;
        let f = lemma_file_in_a_layer(order, p[i].target, file.0, file.1);
        assert(replaces(e, l, f, p[i].target));
    } else {
        let (i, j) = choose|i: int, j: int| #[trigger] follows(p, e, i, j);
        let l = lemma_link_in_a_layer(order, p[i].link, p[i].target);
        let m = lemma_link_in_a_layer(order, p[j].link, p[j].target);
        let file = match p[i].file {
            Some(file) => file,
            None => p[j].file->Some_0,
        };
        let place = if p[i].file is Some {
            p[i].target
        } else {
            p[j].target
        };
        let f = lemma_file_in_a_layer(order, place, file.0, file.1);
        assert(joins(e, l, m, f, p[i].target, p[j].target));
    }
}

/// Everything that is written comes from the layers: it is a file or a hard link
/// as a layer has it, or it stands for a hard link of a layer whose target is
/// gone, either with the header and content of that target or as a link to
/// another hard link to the same target.
pub proof fn law_everything_written_comes_from_the_layers(order: Seq<LayerView>, i: int)
    requires
        layers_merged(fresh_run(), order) is Ok,
        0 <= i < merged_log(order).len(),
    ensures
        is_layer_file(order, merged_log(order)[i]) || is_layer_link(order, merged_log(order)[i])
            || is_promoted_file(order, merged_log(order)[i]) || is_promoted_link(
            order,
            merged_log(order)[i],
        ),
{
    let run = layers_merged(fresh_run(), order)->Ok_0;
    let seen = all_entries(order);
    lemma_layers_come_from(order);
    if i < run.log.len() {
        law_layers_write_their_entries(order, i);
    } else {
        let st = run.state;
        let p = promotions_by_layer(st.links.promotions);
        let links = links_by_layer(st.links.deferred);
        let o = Output { emitted: st.emitted, log: Seq::empty() };
        law_promotions_become_files_and_links(o, p, promotion_targets(p));
        let led = groups_emitted(o, p, promotion_targets(p));
        lemma_settled_writes_links(led, links, st.links.deferred.len(), led.log.len() as int);
        let k = i - run.log.len();
        let rest = deferred_output(st).log;
        let e = rest[k];
        assert(merged_log(order)[i] == e);
        if k < led.log.len() {
            assert(e == led.log[k]);
            assert forall|n: int| 0 <= n < p.len() implies is_link_among(
                seen,
                (#[trigger] p[n]).link,
                p[n].target,
            ) && (p[n].file matches Some(f) ==> comes_from(seen, p[n].target, f.0, f.1)) by {
                lemma_sorted_contains(
                    st.links.promotions,
                    |q: PromotionView| q.layer as int,
                    n,
                );
                let m = choose|m: int|
                    0 <= m < st.links.promotions.len() && st.links.promotions[m] == p[n];
                assert(st.links.promotions[m] == p[n]);
            }
            lemma_promoted_origin(order, p, e);
        } else {
            assert(is_one_link(links, rest[k]));
            let n = choose|n: int|
                0 <= n < links.len() && e == (EmissionView::Entry {
                    header: (#[trigger] links[n]).header,
                    path: links[n].link,
                    data: Seq::empty(),
                });
            lemma_sorted_contains(st.links.deferred, |l: LinkView| l.layer as int, n);
            let m = choose|m: int|
                0 <= m < st.links.deferred.len() && st.links.deferred[m] == links[n];
            let l = st.links.deferred[m];
            assert(l == links[n]);
            let x = choose|x: int|
                0 <= x < seen.len() && is_link_at(#[trigger] seen[x], l.link, l.target)
                    && captured(seen[x]) == Ok::<HeaderView, HeaderError>(l.header);
            lemma_in_a_layer(order, x);
            assert(is_link_at(seen[x], l.link, l.target));
        }
    }
}

// ── What an entry changes ───────────────────────────────────────────────────

/// Whether an entry of `layer` is the newest version of its path: it is content,
/// no newer layer has removed it, and no other version has come before it.
pub open spec fn is_newest(run: Run, e: EntryView, layer: nat) -> bool {
    &&& naming(clean_path(e.path)) == Naming::Content
    &&& !suppressed(run.state.marks, names(clean_path(e.path)), layer)
    &&& !run.state.claimed.contains(path_key(clean_path(e.path)))
}

/// Before the first layer nothing is removed, claimed, written or kept.
pub proof fn law_nothing_is_known_at_first(q: Seq<Seq<char>>, layer: nat, p: Seq<char>)
    ensures
        !suppressed(fresh_run().state.marks, q, layer),
        !fresh_run().state.claimed.contains(path_key(p)),
        !fresh_run().state.emitted.contains(path_key(p)),
        !fresh_run().state.links.buffered.contains_key(path_key(p)),
        fresh_run().state.links.promotions.len() == 0,
        fresh_run().state.links.deferred.len() == 0,
        fresh_run().log.len() == 0,
{
}

/// An entry removes from older layers, beyond what was removed before, exactly
/// what a whiteout stands above, or what is below it where it is the newest
/// version of its path and no directory.
pub proof fn law_entry_removes_from_older_layers(
    run: Run,
    e: EntryView,
    n: nat,
    q: Seq<Seq<char>>,
    layer: nat,
)
    requires
        step(run, e, n) is Ok,
    ensures
        suppressed(step(run, e, n)->Ok_0.state.marks, q, layer) <==> suppressed(
            run.state.marks,
            q,
            layer,
        ) || (n > layer && (naming(clean_path(e.path)) matches Naming::Whiteout(p)
            && p.is_prefix_of(q))) || (n > layer && is_newest(run, e, n) && type_of(
            captured(e)->Ok_0,
        ) != EntryType::Directory && 0 < names(clean_path(e.path)).len() < q.len() && names(
            clean_path(e.path),
        ).is_prefix_of(q)),
{
    let path = clean_path(e.path);
    match naming(path) {
        Naming::Root => {},
        Naming::Whiteout(p) => {
            law_whiteout_suppresses(run.state.marks, p, n, q, layer);
        },
        Naming::Content => {
            if captured(e) is Ok {
                law_entry_hides_what_is_below(
                    run.state.marks,
                    names(path),
                    type_of(captured(e)->Ok_0),
                    n,
                    q,
                    layer,
                );
            }
        },
    }
}

/// An entry claims its path exactly when it is the newest version of it, and no
/// other path.
pub proof fn law_newest_version_claims_its_path(run: Run, e: EntryView, layer: nat, p: Seq<char>)
    requires
        step(run, e, layer) is Ok,
    ensures
        step(run, e, layer)->Ok_0.state.claimed.contains(path_key(p)) <==> (
        run.state.claimed.contains(path_key(p)) || (is_newest(run, e, layer) && same_path(
            clean_path(e.path),
            p,
        ))),
{
    law_key_identifies_path(clean_path(e.path), p);
}

/// An entry is written at once exactly when it is the newest version of its path
/// and no hard link, and then nothing else is. What it is written as is what it
/// is.
pub proof fn law_newest_version_is_written(run: Run, e: EntryView, layer: nat)
    requires
        step(run, e, layer) is Ok,
    ensures
        is_newest(run, e, layer) ==> captured(e) is Ok,
        is_newest(run, e, layer) && type_of(captured(e)->Ok_0) != EntryType::Link ==> step(
            run,
            e,
            layer,
        )->Ok_0.log == run.log.push(
            EmissionView::Entry {
                header: captured(e)->Ok_0,
                path: clean_path(e.path),
                data: e.data,
            },
        ),
        !is_newest(run, e, layer) || type_of(captured(e)->Ok_0) == EntryType::Link ==> step(
            run,
            e,
            layer,
        )->Ok_0.log == run.log,
{
}

/// A path counts as written exactly when something has been written at it.
pub proof fn law_written_paths_are_known(run: Run, e: EntryView, layer: nat, p: Seq<char>)
    requires
        step(run, e, layer) is Ok,
    ensures
        step(run, e, layer)->Ok_0.state.emitted.contains(path_key(p)) <==> (
        run.state.emitted.contains(path_key(p)) || (step(run, e, layer)->Ok_0.log.len()
            > run.log.len() && same_path(step(run, e, layer)->Ok_0.log.last().path(), p))),
{
    law_key_identifies_path(clean_path(e.path), p);
}

/// A hard link that is the newest version of its path is kept back: among those
/// to be promoted where its target has been removed, and among those that wait
/// where it has not. No other entry adds to either.
pub proof fn law_newest_link_is_kept_back(run: Run, e: EntryView, layer: nat)
    requires
        step(run, e, layer) is Ok,
    ensures
        ({
            let before = run.state.links;
            let after = step(run, e, layer)->Ok_0.state.links;
            let h = captured(e)->Ok_0;
            let target = clean_path(link_name_of(h)->Some_0);
            if is_newest(run, e, layer) && type_of(h) == EntryType::Link {
                &&& link_name_of(h) is Some
                &&& if suppressed(run.state.marks, names(target), layer) {
                    &&& after.deferred == before.deferred
                    &&& after.promotions.len() == before.promotions.len() + 1
                    &&& after.promotions.drop_last() == before.promotions
                    &&& after.promotions.last().link == clean_path(e.path)
                    &&& after.promotions.last().target == target
                    &&& after.promotions.last().layer == layer
                } else {
                    &&& after.promotions == before.promotions
                    &&& after.deferred == before.deferred.push(
                        LinkView { link: clean_path(e.path), target, layer, header: h },
                    )
                }
            } else {
                &&& after.deferred == before.deferred
                &&& after.promotions.len() == before.promotions.len()
            }
        }),
{
    let before = run.state.links;
    let after = step(run, e, layer)->Ok_0.state.links;
    if after.promotions.len() > before.promotions.len() {
        assert(after.promotions.drop_last() =~= before.promotions);
    }
}

/// A regular file that newer layers have removed is kept until its layer ends,
/// and no other entry is: a promotion of the same layer finds it whether the
/// hard link comes before it or after it.
pub proof fn law_removed_file_is_kept_for_links(run: Run, e: EntryView, layer: nat, p: Seq<char>)
    requires
        step(run, e, layer) is Ok,
    ensures
        ({
            let path = clean_path(e.path);
            let kind = type_of(HeaderView { block: e.header, pax: Seq::empty() });
            let before = run.state.links.buffered;
            let after = step(run, e, layer)->Ok_0.state.links.buffered;
            if naming(path) == Naming::Content && suppressed(run.state.marks, names(path), layer)
                && (kind == EntryType::Regular || kind == EntryType::Continuous) && same_path(
                path,
                p,
            ) {
                &&& after.contains_key(path_key(p))
                &&& captured(e) == Ok::<HeaderView, HeaderError>(after[path_key(p)].0)
                &&& after[path_key(p)].1 == e.data
            } else {
                &&& after.contains_key(path_key(p)) <==> before.contains_key(path_key(p))
                &&& after.contains_key(path_key(p)) ==> after[path_key(p)] == before[path_key(p)]
            }
        }),
        layer_closed(run).state.links.buffered.contains_key(path_key(p)) == false,
        layer_closed(run).log == run.log,
        layer_closed(run).state.links.promotions == run.state.links.promotions,
        layer_closed(run).state.links.deferred == run.state.links.deferred,
        layer_closed(run).state.marks == run.state.marks,
        layer_closed(run).state.claimed == run.state.claimed,
        layer_closed(run).state.emitted == run.state.emitted,
{
    law_key_identifies_path(clean_path(e.path), p);
}

/// A promotion whose target comes by as a removed file of its layer has that
/// file, in either order of the two.
pub proof fn law_link_and_target_may_come_in_either_order(
    run: Run,
    file: EntryView,
    link: EntryView,
    layer: nat,
    target: Seq<char>,
)
    requires
        is_newest(run, link, layer),
        is_link_at(link, clean_path(link.path), target),
        same_path(clean_path(file.path), target),
        naming(clean_path(file.path)) == Naming::Content,
        suppressed(run.state.marks, names(target), layer),
        type_of(HeaderView { block: file.header, pax: Seq::empty() }) == EntryType::Regular,
        captured(file) is Ok,
    ensures
        ({
            let first = step(step(run, file, layer)->Ok_0, link, layer);
            let second = step(step(run, link, layer)->Ok_0, file, layer);
            let content = Some((captured(file)->Ok_0, file.data));
            &&& step(run, file, layer) is Ok
            &&& step(run, link, layer) is Ok
            &&& first is Ok
            &&& second is Ok
            &&& first->Ok_0.state.links.promotions.last().file == content
            &&& first->Ok_0.state.links.promotions.last().link == clean_path(link.path)
            &&& second->Ok_0.state.links.promotions.last().link == clean_path(link.path)
            &&& run.state.links.buffered.contains_key(path_key(target)) == false
                ==> second->Ok_0.state.links.promotions.last().file == content
        }),
{
    let path = clean_path(file.path);
    law_key_identifies_path(path, target);
    assert(names(path) == names(target));
    let linked = step(run, link, layer)->Ok_0;
    law_entry_removes_from_older_layers(run, link, layer, names(path), layer);
    law_entry_removes_from_older_layers(run, file, layer, names(clean_path(link.path)), layer);
    assert(suppressed(linked.state.marks, names(path), layer));
}

// ── Layers and arrivals ─────────────────────────────────────────────────────

/// A layer of an unknown media type is refused.
pub proof fn law_unknown_layer_is_refused(run: Run, layer: LayerView)
    requires
        !named_compression(layer.media_type),
    ensures
        layer_merged(run, layer) == Err::<Run, MergeFault>(MergeFault::UnsupportedMediaType),
{
    law_media_type_names_the_compression(layer.media_type);
}

/// A layer whose content is whole, and whose archive is too, adds its entries
/// one after the other.
pub proof fn law_readable_layer_adds_its_entries(
    run: Run,
    layer: LayerView,
    compression: Compression,
    after: Run,
)
    requires
        compression_of(layer.media_type) == Some(compression),
        decoded(layer.bytes, compression).complete,
        !oversized(decoded(layer.bytes, compression).bytes),
        archive_entries(decoded(layer.bytes, compression).bytes).complete,
        steps(
            run,
            archive_entries(decoded(layer.bytes, compression).bytes).entries,
            layer.index,
        ) == Ok::<Run, MergeFault>(after),
    ensures
        layer_merged(run, layer) is Ok,
        layer_merged(run, layer)->Ok_0.log == after.log,
        layer_merged(run, layer)->Ok_0.state.marks == after.state.marks,
        layer_merged(run, layer)->Ok_0.state.claimed == after.state.claimed,
        layer_merged(run, layer)->Ok_0.state.links.promotions == after.state.links.promotions,
        layer_merged(run, layer)->Ok_0.state.links.deferred == after.state.links.deferred,
{
}

/// A layer that is not whole is not merged: its content or its archive ends too
/// early.
pub proof fn law_damaged_layer_is_refused(run: Run, layer: LayerView, compression: Compression)
    requires
        compression_of(layer.media_type) == Some(compression),
        !archive_entries(decoded(layer.bytes, compression).bytes).complete,
    ensures
        layer_merged(run, layer) is Err,
        steps(run, layer_entries(layer), layer.index) is Ok && !oversized(
            decoded(layer.bytes, compression).bytes,
        ) ==> layer_merged(run, layer) == Err::<Run, MergeFault>(
            if decoded(layer.bytes, compression).complete {
                MergeFault::Archive
            } else {
                MergeFault::Decode
            },
        ),
{
}

/// A layer of a size that cannot be counted with is refused.
pub proof fn law_oversized_layer_is_refused(run: Run, layer: LayerView, compression: Compression)
    requires
        compression_of(layer.media_type) == Some(compression),
        oversized(decoded(layer.bytes, compression).bytes),
    ensures
        layer_merged(run, layer) == Err::<Run, MergeFault>(MergeFault::Archive),
{
}

/// No layers make an archive without entries, and a fault of one layer is a
/// fault of all.
pub proof fn law_merge_needs_every_layer(order: Seq<LayerView>, n: int)
    requires
        0 <= n < order.len(),
        layers_merged(fresh_run(), order.take(n)) is Ok,
        layer_merged(layers_merged(fresh_run(), order.take(n))->Ok_0, order[n]) is Err,
    ensures
        layers_merged(fresh_run(), order) == layer_merged(
            layers_merged(fresh_run(), order.take(n))->Ok_0,
            order[n],
        ),
        merged_archive(order) is Err,
        progress_log(order) == progress_log(order.take(n)).push(
            PackerProgress::LayerStarted(order[n].index as usize),
        ),
        merged_archive(Seq::empty()) == Ok::<Seq<u8>, MergeFault>(zeros(1024)),
{
    assert(order.take(n + 1).drop_last() =~= order.take(n));
    assert(order.take(n + 1).last() == order[n]);
    lemma_layers_fault(order, n + 1);
    let none = Seq::<LayerView>::empty();
    assert(layers_merged(fresh_run(), none) == Ok::<Run, MergeFault>(fresh_run()));
    let st = fresh_run().state;
    assert(promotions_by_layer(st.links.promotions) =~= Seq::empty());
    assert(links_by_layer(st.links.deferred) =~= Seq::empty());
    let o = Output { emitted: st.emitted, log: Seq::empty() };
    assert(groups_emitted(o, Seq::empty(), Seq::empty()) == o);
    assert(promotion_targets(Seq::empty()) =~= Seq::<Seq<char>>::empty());
    assert(deferred_output(st).log =~= Seq::empty());
    assert(fresh_run().log + deferred_output(st).log =~= Seq::empty());
    assert(log_bytes(Seq::empty()) =~= Seq::empty());
    assert(Seq::<u8>::empty() + zeros(1024) =~= zeros(1024));
}

/// Of arriving layers, the first that could not be had is the error, where no
/// layer that was merged before it failed; and so is an end that comes too
/// early. Nothing behind either counts.
pub proof fn law_missing_layer_is_the_error(arrivals: Seq<ArrivalView>, total: nat, n: int)
    requires
        0 <= n <= arrivals.len(),
        n < total,
        forall|i: int| 0 <= i < n ==> (#[trigger] arrivals[i]) is Layer,
        n < arrivals.len() ==> arrivals[n] is Failed,
        layers_merged(fresh_run(), arrival_order(arrivals, total)) is Ok,
    ensures
        n < arrivals.len() ==> merged_arrivals(arrivals, total) == Err::<Seq<u8>, MergeFault>(
            MergeFault::Download(arrivals[n]->Failed_0),
        ),
        n == arrivals.len() ==> merged_arrivals(arrivals, total) == Err::<Seq<u8>, MergeFault>(
            MergeFault::Closed { received: n as nat, total },
        ),
        merged_arrivals(arrivals, total) == merged_arrivals(
            if n < arrivals.len() {
                arrivals.take(n + 1)
            } else {
                arrivals
            },
            total,
        ),
{
    lemma_good_arrivals(arrivals, total, n as nat);
    if n < arrivals.len() {
        let short = arrivals.take(n + 1);
        assert forall|i: int| 0 <= i < n implies (#[trigger] short[i]) is Layer by {
            assert(short[i] == arrivals[i]);
        }
        assert(short[n] is Failed);
        lemma_good_arrivals(short, total, n as nat);
        assert(arrived_layers(short, n as nat) =~= arrived_layers(arrivals, n as nat)) by {
            assert forall|i: int| 0 <= i < n implies short[i] == arrivals[i] by {}
        }
    }
}

/// A fault of a layer that was merged before comes first.
pub proof fn law_merged_layer_fails_first(arrivals: Seq<ArrivalView>, total: nat)
    requires
        layers_merged(fresh_run(), arrival_order(arrivals, total)) is Err,
    ensures
        merged_arrivals(arrivals, total) == Err::<Seq<u8>, MergeFault>(
            layers_merged(fresh_run(), arrival_order(arrivals, total))->Err_0,
        ),
{
}

/// Layers are merged from the highest index down, and those with one index in
/// the order that they came in. All of them are.
pub proof fn law_newest_layers_come_first(layers: Seq<LayerView>, k: nat)
    ensures
        newest_first(layers).len() == layers.len(),
        newest_first(layers).to_multiset() == layers.to_multiset(),
        forall|i: int, j: int|
            0 <= i < j < layers.len() ==> (#[trigger] newest_first(layers)[i]).index >= (
            #[trigger] newest_first(layers)[j]).index,
        newest_first(layers).filter(|l: LayerView| l.index == k) == layers.filter(
            |l: LayerView| l.index == k,
        ),
{
    let key = |l: LayerView| -(l.index as int);
    law_sorted(layers, key);
    assert forall|i: int, j: int| 0 <= i < j < layers.len() implies (
    #[trigger] newest_first(layers)[i]).index >= (#[trigger] newest_first(layers)[j]).index by {
        assert(key(newest_first(layers)[i]) <= key(newest_first(layers)[j]));
    }
    law_sorted_stable(layers, key, -(k as int));
    lemma_with_key(layers, k);
    lemma_with_key(newest_first(layers), k);
}

proof fn lemma_with_key(s: Seq<LayerView>, k: nat)
    ensures
        with_key(s, |l: LayerView| -(l.index as int), -(k as int)) == s.filter(
            |l: LayerView| l.index == k,
        ),
    decreases s.len(),
{
    reveal(Seq::filter);
    if s.len() > 0 {
        lemma_with_key(s.drop_last(), k);
    }
}

// ── Paths and faults ────────────────────────────────────────────────────────

/// The path of an entry is the text in its header without the `./` and the `/`
/// at its start. It starts at no root and has the same names.
pub proof fn law_entry_path_is_without_its_start(
    p: Seq<char>,
    dots: nat,
    slashes: nat,
    raw: Seq<u8>,
)
    requires
        p.len() == 0 || p[0] != '/',
        slashes == 0 ==> !(p.len() >= 2 && p[0] == '.' && p[1] == '/'),
    ensures
        clean_path(
            encode_utf8(repeated(seq!['.', '/'], dots) + (repeated(seq!['/'], slashes) + p)),
        ) == p,
        !is_absolute(clean_path(raw)),
        names(clean_path(raw)) == names(lossy_text(raw)),
{
    let text = repeated(seq!['.', '/'], dots) + (repeated(seq!['/'], slashes) + p);
    encode_utf8_valid_utf8(text);
    encode_utf8_decode_utf8(text);
    law_normalizing_takes_off_the_start(p, dots, slashes);
    law_normalized_is_relative(lossy_text(raw));
    law_normalizing_keeps_names(lossy_text(raw));
}

/// An entry fails in no case but these: it is the newest version of its path, or
/// a regular file that newer layers have removed, and its header cannot be
/// captured; it is a hard link without a target; or it cannot be written.
pub proof fn law_entry_fails_only_where_it_must(run: Run, e: EntryView, layer: nat)
    ensures
        ({
            let path = clean_path(e.path);
            let kind = type_of(HeaderView { block: e.header, pax: Seq::empty() });
            let gone = naming(path) == Naming::Content && suppressed(
                run.state.marks,
                names(path),
                layer,
            );
            let kept = gone && (kind == EntryType::Regular || kind == EntryType::Continuous);
            let live = is_newest(run, e, layer);
            let r = step(run, e, layer);
            &&& (live || kept) && captured(e) is Err ==> r == Err::<Run, MergeFault>(
                MergeFault::Header(captured(e)->Err_0),
            )
            &&& kept && captured(e) is Ok ==> r is Ok
            &&& !live && !kept ==> r is Ok
            &&& live && (captured(e) matches Ok(h) && type_of(h) == EntryType::Link
                && link_name_of(h) is None) ==> r == Err::<Run, MergeFault>(
                MergeFault::NoLinkTarget,
            )
            &&& live && (captured(e) matches Ok(h) && type_of(h) == EntryType::Link
                && link_name_of(h) is Some) ==> r is Ok
            &&& live && (captured(e) matches Ok(h) && type_of(h) != EntryType::Link) ==> (r is Ok
                <==> entry_bytes(captured(e)->Ok_0, path, e.data) is Some) && (r is Err
                ==> r->Err_0 == MergeFault::Write)
        }),
{
}

/// What is read from the output of an entry is at the same names, has the same
/// content, and is of the type and with the records that it was written with.
pub proof fn law_written_entry_shows_itself(
    seen: EntryView,
    header: HeaderView,
    path: Seq<char>,
    data: Seq<u8>,
)
    requires
        header.block.len() == 512,
        shows(seen, EmissionView::Entry { header, path, data }),
    ensures
        names(lossy_text(seen.path)) == names(path),
        seen.data == data,
        captured(seen) is Ok,
        captured(seen)->Ok_0.pax == header.pax,
        type_of(captured(seen)->Ok_0) == type_of(header),
        link_name_of(captured(seen)->Ok_0) == link_name_of(header),
{
    law_written_entry_is_captured(seen, header, path, data);
}

/// What is read from the output of a hard link is a hard link at its path to its
/// target, without content.
pub proof fn law_written_link_shows_itself(
    seen: EntryView,
    header: HeaderView,
    link: Seq<char>,
    target: Seq<char>,
)
    requires
        header.block.len() == 512,
        shows(seen, EmissionView::HardLink { header, link, target }),
        emission_readable(EmissionView::HardLink { header, link, target }),
        encode_utf8(target).len() > 0,
        encode_utf8(target).len() <= 100 ==> !encode_utf8(target).contains(0u8),
    ensures
        seen.path == encode_utf8(link),
        seen.data.len() == 0,
        captured(seen) is Ok,
        type_of(captured(seen)->Ok_0) == EntryType::Link,
        link_name_of(captured(seen)->Ok_0) == Some(encode_utf8(target)),
{
    law_written_hardlink_is_captured(header, link, target);
}

/// The merged archive has its entries in the order of the output, one for each
/// emission, and two blocks of zeros at its end.
pub proof fn law_archive_is_the_output_in_order(order: Seq<LayerView>)
    requires
        merged_archive(order) is Ok,
    ensures
        zeros(1024).is_suffix_of(merged_archive(order)->Ok_0),
        merged_archive(order)->Ok_0 == log_bytes(merged_log(order)) + zeros(1024),
        all_written(deferred_output(layers_merged(fresh_run(), order)->Ok_0.state).log),
        forall|a: Seq<EmissionView>, e: EmissionView|
            emission_bytes(e) is Some ==> #[trigger] log_bytes(a.push(e)) == log_bytes(a)
                + emission_bytes(e)->Some_0,
{
    let archive = merged_archive(order)->Ok_0;
    let body = log_bytes(merged_log(order));
    assert(zeros(1024) =~= archive.subrange(archive.len() - 1024, archive.len() as int));
    assert forall|a: Seq<EmissionView>, e: EmissionView|
        emission_bytes(e) is Some implies #[trigger] log_bytes(a.push(e)) == log_bytes(a)
        + emission_bytes(e)->Some_0 by {
        assert(a.push(e).drop_last() =~= a);
    }
}

/// A decompressor that fails before the end of the archive fails the layer, and
/// one that fails behind it does not: there the archive ends in its own bytes,
/// so that it is read to its end also with a part of a block behind it.
pub proof fn law_damage_counts_up_to_the_end_of_the_archive(
    run: Run,
    layer: LayerView,
    compression: Compression,
)
    requires
        compression_of(layer.media_type) == Some(compression),
        !decoded(layer.bytes, compression).complete,
        !oversized(decoded(layer.bytes, compression).bytes),
        steps(run, layer_entries(layer), layer.index) is Ok,
    ensures
        ({
            let archive = decoded(layer.bytes, compression).bytes;
            let whole = archive_entries(archive).complete && !oversized(archive.push(1u8))
                && archive_entries(archive.push(1u8)).complete;
            &&& whole ==> layer_merged(run, layer) is Ok
            &&& !whole ==> layer_merged(run, layer) == Err::<Run, MergeFault>(MergeFault::Decode)
        }),
{
}

} // verus!
