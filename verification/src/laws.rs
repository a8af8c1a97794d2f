use vstd::prelude::*;
use crate::arrange::{lemma_named_is_claimed, lemma_names_first};
use crate::canvas_view::{
    bumped, config_of, configured, has_id, index_of_id, is_first_with_id, lemma_has_id_first,
    lemma_index_of_id, lemma_patched_frame, names, names_first_at, names_last_at, patch_within,
    picked, rearranged, unique_ids, unmentioned, CanvasView, EntryView, Patch,
};
use crate::layer_config::{CanvasLayerConfig, LayerId};

verus! {

/// Two stacks with the same ids in the same places find every id at the
/// same place.
pub proof fn lemma_same_ids_same_place(a: Seq<EntryView>, b: Seq<EntryView>, id: LayerId)
    requires
        a.len() == b.len(),
        forall|i: int| 0 <= i < a.len() ==> (#[trigger] a[i]).id == b[i].id,
    ensures
        has_id(a, id) == has_id(b, id),
        has_id(a, id) ==> index_of_id(a, id) == index_of_id(b, id),
{
    if has_id(a, id) {
        lemma_has_id_first(a, id);
        let i = index_of_id(a, id);
        assert(b[i].id == a[i].id);
        assert forall|j: int| 0 <= j < i implies (#[trigger] b[j]).id != id by {
            assert(a[j].id != id);
        }
        assert(is_first_with_id(b, id, i));
        lemma_index_of_id(b, id, i);
    }
    if has_id(b, id) {
        let i = choose|i: int| 0 <= i < b.len() && (#[trigger] b[i]).id == id;
        assert(a[i].id == id);
    }
}

/// A recomposed canvas shows its composite.
pub proof fn lemma_recomposed_is_fresh(state: CanvasView)
    ensures
        state.recomposed().fresh(),
{
}

/// Edit, undo, redo. An edit through the command log followed by an undo
/// leaves every layer as it was before the edit, pixel for pixel, and the
/// undo stack as it was; a redo after that gives every layer and the undo
/// stack the state the edit had left. Where the display was fresh before the
/// edit, the undo also shows what was shown then.
pub proof fn lemma_edit_undo_redo(state: CanvasView, patch: Patch)
    requires
        state.wf(),
        patch_within(patch, state.size),
    ensures
        ({
            let edited = state.edited(patch);
            let undone = edited.undo();
            let redone = undone.redo();
            &&& undone.entries == state.entries
            &&& undone.undo == state.undo
            &&& state.fresh() ==> undone.display == state.display
            &&& redone.entries == edited.entries
            &&& redone.undo == edited.undo
            &&& redone.display == edited.display
        }),
{
    let edited = state.edited(patch);
    let undone = edited.undo();
    let redone = undone.redo();
    match state.active_index() {
        Some(i) => {
            lemma_has_id_first(state.entries, state.active);
            let layer = state.entries[i].layer;
            assert(state.entries[i].layer == layer);
            lemma_patched_frame(layer, patch, state.size);
            let reverse = layer.captured(patch);
            let written = layer.patched(patch);
            lemma_same_ids_same_place(state.entries, edited.entries, state.active);
            assert(edited.active_index() == Some(i));
            assert(edited.undo.last() == reverse);
            assert(edited.undo.drop_last() =~= state.undo);
            assert(undone.entries =~= state.entries);
            lemma_same_ids_same_place(state.entries, undone.entries, state.active);
            assert(undone.active_index() == Some(i));
            assert(undone.redo.last() == patch);
            assert(redone.entries =~= edited.entries);
            assert(redone.undo =~= edited.undo);
        },
        None => {},
    }
}

/// Whether a configuration is a rearrangement of a stack: it names every
/// layer of the stack, names no layer twice, and names no layer that the
/// stack lacks.
pub open spec fn rearranges(config: Seq<CanvasLayerConfig>, entries: Seq<EntryView>) -> bool {
    &&& forall|k: int, m: int|
        0 <= k < m < config.len() ==> (#[trigger] config[k]).id != (#[trigger] config[m]).id
    &&& forall|k: int| 0 <= k < config.len() ==> has_id(entries, (#[trigger] config[k]).id)
    &&& forall|i: int| 0 <= i < entries.len() ==> names(config, (#[trigger] entries[i]).id)
}

/// A rearrangement puts the entry of each of its lines at the line's place.
pub proof fn lemma_picked_by_rearrangement(
    entries: Seq<EntryView>,
    config: Seq<CanvasLayerConfig>,
    k: int,
)
    requires
        rearranges(config, entries),
        0 <= k <= config.len(),
    ensures
        picked(entries, config, k).len() == k,
        forall|t: int|
            0 <= t < k ==> #[trigger] picked(entries, config, k)[t] == entries[index_of_id(
                entries,
                config[t].id,
            )],
    decreases k,
{
    if k > 0 {
        lemma_picked_by_rearrangement(entries, config, k - 1);
        assert(names_last_at(config, k - 1));
        assert(has_id(entries, config[k - 1].id));
    }
}

/// A rearrangement leaves no entry unmentioned.
pub proof fn lemma_none_unmentioned(entries: Seq<EntryView>, config: Seq<CanvasLayerConfig>, n: int)
    requires
        rearranges(config, entries),
        0 <= n <= entries.len(),
    ensures
        unmentioned(entries, config, n) == Seq::<EntryView>::empty(),
    decreases n,
{
    if n > 0 {
        lemma_none_unmentioned(entries, config, n - 1);
        assert(names(config, entries[n - 1].id));
    }
}

/// Setting the same configuration twice. After a rearrangement of the stack
/// was set, the canvas has that configuration, and setting it again changes
/// nothing: neither the layers, nor the display, nor the count of
/// recompositions.
pub proof fn lemma_set_config_twice(
    state: CanvasView,
    config: Seq<CanvasLayerConfig>,
    active: LayerId,
)
    requires
        state.wf(),
        rearranges(config, state.entries),
    ensures
        state.set_config(config, active).has_config(config, active),
        state.set_config(config, active).set_config(config, active) == state.set_config(
            config,
            active,
        ),
{
    let once = state.set_config(config, active);
    if !state.has_config(config, active) {
        let entries = state.entries;
        lemma_picked_by_rearrangement(entries, config, config.len() as int);
        lemma_none_unmentioned(entries, config, entries.len() as int);
        let order = rearranged(entries, config);
        assert(order =~= picked(entries, config, config.len() as int));
        let after = configured(entries, config);
        assert forall|t: int| 0 <= t < config.len() implies #[trigger] config_of(after)[t]
            == config[t] by {
            let id = config[t].id;
            lemma_has_id_first(entries, id);
            assert(order[t] == entries[index_of_id(entries, id)]);
            assert(order[t].id == id);
            assert forall|m: int| 0 <= m < t implies (#[trigger] config[m]).id != id by {}
            assert(names_first_at(config, id, t));
            lemma_names_first(config, id, t);
        }
        assert(config_of(after) =~= config);
    }
}

/// Whether one of the first `k` lines of a configuration puts the entry `e`
/// of the stack in place: the line is the last to name its id, and `e` is
/// the stack's entry of that id.
pub open spec fn placed_by(
    entries: Seq<EntryView>,
    config: Seq<CanvasLayerConfig>,
    k: int,
    e: EntryView,
) -> bool {
    exists|m: int|
        0 <= m < k && names_last_at(config, m) && is_first_with_id(
            entries,
            (#[trigger] config[m]).id,
            index_of_id(entries, config[m].id),
        ) && e == entries[index_of_id(entries, config[m].id)]
}

/// Whether `e` is one of the first `n` entries of the stack and the
/// configuration does not name it.
pub open spec fn left_over(
    entries: Seq<EntryView>,
    config: Seq<CanvasLayerConfig>,
    n: int,
    e: EntryView,
) -> bool {
    exists|j: int| 0 <= j < n && !names(config, (#[trigger] entries[j]).id) && e == entries[j]
}

/// A line that puts `e` in place, where there is one.
pub open spec fn line_of(
    entries: Seq<EntryView>,
    config: Seq<CanvasLayerConfig>,
    k: int,
    e: EntryView,
) -> int {
    choose|m: int|
        0 <= m < k && names_last_at(config, m) && is_first_with_id(
            entries,
            (#[trigger] config[m]).id,
            index_of_id(entries, config[m].id),
        ) && e == entries[index_of_id(entries, config[m].id)]
}

/// A place of `e` among the entries left over, where there is one.
pub open spec fn place_of(
    entries: Seq<EntryView>,
    config: Seq<CanvasLayerConfig>,
    n: int,
    e: EntryView,
) -> int {
    choose|j: int| 0 <= j < n && !names(config, (#[trigger] entries[j]).id) && e == entries[j]
}

/// The entries put in place by the first `k` lines of a configuration are
/// entries of the stack, each the entry of a line that is the last to name
/// its id, and no two of them share an id.
pub proof fn lemma_picked_members(entries: Seq<EntryView>, config: Seq<CanvasLayerConfig>, k: int)
    requires
        0 <= k <= config.len(),
    ensures
        forall|t: int|
            0 <= t < picked(entries, config, k).len() ==> placed_by(
                entries,
                config,
                k,
                #[trigger] picked(entries, config, k)[t],
            ),
        forall|s: int, t: int|
            0 <= s < t < picked(entries, config, k).len() ==> (#[trigger] picked(
                entries,
                config,
                k,
            )[s]).id != (#[trigger] picked(entries, config, k)[t]).id,
    decreases k,
{
    if k > 0 {
        lemma_picked_members(entries, config, k - 1);
        let before = picked(entries, config, k - 1);
        let now = picked(entries, config, k);
        let id = config[k - 1].id;
        let grows = names_last_at(config, k - 1) && has_id(entries, id);
        if grows {
            lemma_has_id_first(entries, id);
        }
        assert forall|t: int| 0 <= t < now.len() implies placed_by(
            entries,
            config,
            k,
            #[trigger] now[t],
        ) by {
            if t < before.len() {
                assert(now[t] == before[t]);
                assert(placed_by(entries, config, k - 1, before[t]));
                let m = line_of(entries, config, k - 1, before[t]);
                assert(0 <= m < k && config[m].id == config[m].id);
            } else {
                assert(config[k - 1].id == id);
            }
        }
        assert forall|s: int, t: int| 0 <= s < t < now.len() implies (#[trigger] now[s]).id != (
        #[trigger] now[t]).id by {
            assert(now[s] == before[s]);
            if t < before.len() {
                assert(now[t] == before[t]);
            } else {
                assert(placed_by(entries, config, k - 1, before[s]));
                let m = line_of(entries, config, k - 1, before[s]);
                assert(config[k - 1].id != config[m].id);
            }
        }
    }
}

/// The unmentioned entries among the first `n` of a stack are entries of
/// the stack that the configuration does not name, and no two of them share
/// an id.
pub proof fn lemma_unmentioned_members(
    entries: Seq<EntryView>,
    config: Seq<CanvasLayerConfig>,
    n: int,
)
    requires
        0 <= n <= entries.len(),
        unique_ids(entries),
    ensures
        forall|t: int|
            0 <= t < unmentioned(entries, config, n).len() ==> left_over(
                entries,
                config,
                n,
                #[trigger] unmentioned(entries, config, n)[t],
            ),
        forall|s: int, t: int|
            0 <= s < t < unmentioned(entries, config, n).len() ==> (#[trigger] unmentioned(
                entries,
                config,
                n,
            )[s]).id != (#[trigger] unmentioned(entries, config, n)[t]).id,
    decreases n,
{
    if n > 0 {
        lemma_unmentioned_members(entries, config, n - 1);
        let before = unmentioned(entries, config, n - 1);
        let now = unmentioned(entries, config, n);
        assert forall|t: int| 0 <= t < now.len() implies left_over(
            entries,
            config,
            n,
            #[trigger] now[t],
        ) by {
            if t < before.len() {
                assert(now[t] == before[t]);
                assert(left_over(entries, config, n - 1, before[t]));
                let j = place_of(entries, config, n - 1, before[t]);
                assert(0 <= j < n && entries[j].id == entries[j].id);
            } else {
                assert(now[t] == entries[n - 1]);
            }
        }
        assert forall|s: int, t: int| 0 <= s < t < now.len() implies (#[trigger] now[s]).id != (
        #[trigger] now[t]).id by {
            assert(now[s] == before[s]);
            if t < before.len() {
                assert(now[t] == before[t]);
            } else {
                assert(left_over(entries, config, n - 1, before[s]));
                let j = place_of(entries, config, n - 1, before[s]);
                assert(entries[j].id != entries[n - 1].id);
            }
        }
    }
}

/// An entry whose id is named last by one of the first `k` lines of a
/// configuration is among the entries those lines put in place.
pub proof fn lemma_picked_holds(
    entries: Seq<EntryView>,
    config: Seq<CanvasLayerConfig>,
    k: int,
    m: int,
)
    requires
        0 <= m < k <= config.len(),
        names_last_at(config, m),
        has_id(entries, config[m].id),
    ensures
        picked(entries, config, k).contains(entries[index_of_id(entries, config[m].id)]),
    decreases k,
{
    let now = picked(entries, config, k);
    if m == k - 1 {
        assert(now[now.len() - 1] == entries[index_of_id(entries, config[m].id)]);
    } else {
        lemma_picked_holds(entries, config, k - 1, m);
        let before = picked(entries, config, k - 1);
        let t = choose|t: int|
            0 <= t < before.len() && before[t] == entries[index_of_id(entries, config[m].id)];
        assert(now[t] == before[t]);
    }
}

/// An entry that a configuration does not name is among the unmentioned
/// entries from its place on.
pub proof fn lemma_unmentioned_holds(
    entries: Seq<EntryView>,
    config: Seq<CanvasLayerConfig>,
    n: int,
    j: int,
)
    requires
        0 <= j < n <= entries.len(),
        !names(config, entries[j].id),
    ensures
        unmentioned(entries, config, n).contains(entries[j]),
    decreases n,
{
    let now = unmentioned(entries, config, n);
    if j == n - 1 {
        assert(now[now.len() - 1] == entries[j]);
    } else {
        lemma_unmentioned_holds(entries, config, n - 1, j);
        let before = unmentioned(entries, config, n - 1);
        let t = choose|t: int| 0 <= t < before.len() && before[t] == entries[j];
        assert(now[t] == before[t]);
    }
}

/// Rearranging keeps the layers. A rearranged stack holds every entry of the
/// stack and nothing else, and no two of its entries share an id.
pub proof fn lemma_rearranged_keeps_entries(entries: Seq<EntryView>, config: Seq<CanvasLayerConfig>)
    requires
        unique_ids(entries),
    ensures
        unique_ids(rearranged(entries, config)),
        forall|t: int|
            0 <= t < rearranged(entries, config).len() ==> entries.contains(
                #[trigger] rearranged(entries, config)[t],
            ),
        forall|j: int|
            0 <= j < entries.len() ==> rearranged(entries, config).contains(#[trigger] entries[j]),
{
    let named = picked(entries, config, config.len() as int);
    let rest = unmentioned(entries, config, entries.len() as int);
    let order = rearranged(entries, config);
    lemma_picked_members(entries, config, config.len() as int);
    lemma_unmentioned_members(entries, config, entries.len() as int);
    assert forall|t: int| 0 <= t < order.len() implies entries.contains(#[trigger] order[t]) && (t
        < named.len() ==> names(config, order[t].id)) && (t >= named.len() ==> !names(
        config,
        order[t].id,
    )) by {
        if t < named.len() {
            assert(order[t] == named[t]);
            assert(placed_by(entries, config, config.len() as int, named[t]));
            let m = line_of(entries, config, config.len() as int, named[t]);
            assert(config[m].id == order[t].id);
        } else {
            assert(order[t] == rest[t - named.len()]);
            assert(left_over(entries, config, entries.len() as int, rest[t - named.len()]));
            let j = place_of(entries, config, entries.len() as int, rest[t - named.len()]);
            assert(entries[j] == order[t]);
        }
    }
    assert forall|s: int, t: int| 0 <= s < t < order.len() implies (#[trigger] order[s]).id != (
    #[trigger] order[t]).id by {
        if t < named.len() {
            assert(order[s] == named[s] && order[t] == named[t]);
        } else if s >= named.len() {
            assert(order[s] == rest[s - named.len()] && order[t] == rest[t - named.len()]);
        } else {
            assert(entries.contains(order[s]) && entries.contains(order[t]));
        }
    }
    assert forall|j: int| 0 <= j < entries.len() implies order.contains(#[trigger] entries[j]) by {
        let id = entries[j].id;
        if names(config, id) {
            lemma_named_is_claimed(config, id);
            let m = choose|m: int|
                0 <= m < config.len() && m < config.len() && names_last_at(config, m) && (
                #[trigger] config[m]).id == id;
            assert(has_id(entries, id));
            lemma_has_id_first(entries, id);
            let first = index_of_id(entries, id);
            if first < j {
                assert(entries[first].id != entries[j].id);
            }
            if j < first {
                assert(entries[j].id != id);
            }
            lemma_picked_holds(entries, config, config.len() as int, m);
            let t = choose|t: int| 0 <= t < named.len() && named[t] == entries[j];
            assert(order[t] == entries[j]);
        } else {
            lemma_unmentioned_holds(entries, config, entries.len() as int, j);
            let t = choose|t: int| 0 <= t < rest.len() && rest[t] == entries[j];
            assert(order[named.len() + t] == entries[j]);
        }
    }
}

/// When a set configuration sticks. After a configuration was set, the
/// canvas has that configuration exactly if the configuration is a
/// rearrangement of the stack. Any other configuration is not what the
/// canvas has afterwards, so that setting it once more recomposes once more.
pub proof fn lemma_set_config_sticks(
    state: CanvasView,
    config: Seq<CanvasLayerConfig>,
    active: LayerId,
)
    requires
        state.wf(),
    ensures
        state.set_config(config, active).has_config(config, active) <==> rearranges(
            config,
            state.entries,
        ),
        !rearranges(config, state.entries) ==> state.set_config(config, active).set_config(
            config,
            active,
        ).recompositions == bumped(state.set_config(config, active).recompositions),
{
    let entries = state.entries;
    let once = state.set_config(config, active);
    if rearranges(config, entries) {
        lemma_set_config_twice(state, config, active);
    }
    if once.has_config(config, active) {
        if state.has_config(config, active) {
            assert forall|k: int| 0 <= k < config.len() implies has_id(
                entries,
                (#[trigger] config[k]).id,
            ) by {
                assert(entries[k].id == config[k].id);
            }
            assert forall|i: int| 0 <= i < entries.len() implies names(
                config,
                (#[trigger] entries[i]).id,
            ) by {
                assert(config[i].id == entries[i].id);
            }
            assert forall|k: int, m: int| 0 <= k < m < config.len() implies (#[trigger] config[k]).id
                != (#[trigger] config[m]).id by {
                assert(entries[k].id != entries[m].id);
            }
        } else {
            let order = rearranged(entries, config);
            lemma_rearranged_keeps_entries(entries, config);
            assert(config.len() == order.len());
            assert forall|k: int| 0 <= k < config.len() implies (#[trigger] config[k]).id
                == order[k].id by {
                assert(config[k] == config_of(once.entries)[k]);
            }
            assert forall|k: int| 0 <= k < config.len() implies has_id(
                entries,
                (#[trigger] config[k]).id,
            ) by {
                assert(entries.contains(order[k]));
                let j = choose|j: int| 0 <= j < entries.len() && entries[j] == order[k];
                assert(entries[j].id == config[k].id);
            }
            assert forall|i: int| 0 <= i < entries.len() implies names(
                config,
                (#[trigger] entries[i]).id,
            ) by {
                assert(order.contains(entries[i]));
                let t = choose|t: int| 0 <= t < order.len() && order[t] == entries[i];
                assert(config[t].id == entries[i].id);
            }
            assert forall|k: int, m: int| 0 <= k < m < config.len() implies (#[trigger] config[k]).id
                != (#[trigger] config[m]).id by {
                assert(order[k].id != order[m].id);
            }
        }
    }
}

} // verus!
