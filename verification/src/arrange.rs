use vstd::prelude::*;
use crate::canvas::{entry_views, CanvasLayerEntry};
use crate::canvas_view::{
    configured_entry, has_id, is_first_with_id, lemma_index_of_id, names, names_first_at,
    names_last_at, picked, rearranged, unique_ids, unmentioned,
};
use crate::layer_config::{CanvasLayerConfig, LayerId};

verus! {

/// Whether one of the first `k` lines of a configuration is the last line
/// to name `id`.
pub open spec fn claimed(config: Seq<CanvasLayerConfig>, k: int, id: LayerId) -> bool {
    exists|m: int| 0 <= m < k && m < config.len() && names_last_at(config, m) && (
    #[trigger] config[m]).id == id
}

/// An id that a configuration names is named by a last line.
pub proof fn lemma_named_is_claimed(config: Seq<CanvasLayerConfig>, id: LayerId)
    ensures
        names(config, id) <==> claimed(config, config.len() as int, id),
{
    if names(config, id) {
        let k = choose|k: int| 0 <= k < config.len() && (#[trigger] config[k]).id == id;
        lemma_last_above(config, id, k);
    }
    if claimed(config, config.len() as int, id) {
        let m = choose|m: int|
            0 <= m < config.len() && m < config.len() && names_last_at(config, m) && (
            #[trigger] config[m]).id == id;
        assert(config[m].id == id);
    }
}

proof fn lemma_last_above(config: Seq<CanvasLayerConfig>, id: LayerId, k: int)
    requires
        0 <= k < config.len(),
        config[k].id == id,
    ensures
        claimed(config, config.len() as int, id),
    decreases config.len() - k,
{
    if exists|m: int| k < m < config.len() && (#[trigger] config[m]).id == id {
        let m = choose|m: int| k < m < config.len() && (#[trigger] config[m]).id == id;
        lemma_last_above(config, id, m);
    } else {
        assert(names_last_at(config, k));
        assert(config[k].id == id);
    }
}

/// The first line of a configuration that names an id is the only first one.
pub proof fn lemma_names_first(config: Seq<CanvasLayerConfig>, id: LayerId, k: int)
    requires
        names_first_at(config, id, k),
    ensures
        names(config, id),
        (choose|m: int| names_first_at(config, id, m)) == k,
{
    let chosen = choose|m: int| names_first_at(config, id, m);
    assert(config[k].id == id);
    if chosen < k {
        assert(config[chosen].id != id);
    }
    if k < chosen {
        assert(config[k].id != id);
    }
}

/// Whether line `k` is the last line of the configuration to name its id.
fn is_last_mention(config: &Vec<CanvasLayerConfig>, k: usize) -> (last: bool)
    requires
        k < config@.len(),
    ensures
        last == names_last_at(config@, k as int),
{
    let lines: usize = config.len();
    let mut m: usize = k + 1;
    while m < lines
        invariant
            lines == config.len(),
            k < m <= lines,
            forall|n: int| k < n < m ==> (#[trigger] config@[n]).id != config@[k as int].id,
        decreases lines - m,
    {
        if config[m].id == config[k].id {
            return false;
        }
        m = m + 1;
    }
    true
}

/// The first line of the configuration that names `id`.
fn first_mention(config: &Vec<CanvasLayerConfig>, id: LayerId) -> (found: Option<usize>)
    ensures
        match found {
            Some(k) => names_first_at(config@, id, k as int),
            None => !names(config@, id),
        },
{
    let mut k: usize = 0;
    while k < config.len()
        invariant
            k <= config.len(),
            forall|m: int| 0 <= m < k ==> (#[trigger] config@[m]).id != id,
        decreases config.len() - k,
    {
        if config[k].id == id {
            return Some(k);
        }
        k = k + 1;
    }
    None
}

/// The place of the entry with the given id among those still in their slots.
fn find_slot(slots: &Vec<Option<CanvasLayerEntry>>, id: LayerId) -> (found: Option<usize>)
    ensures
        match found {
            Some(j) => j < slots@.len() && slots@[j as int] is Some && slots@[j as int]->0.id == id,
            None => forall|j: int|
                0 <= j < slots@.len() && (#[trigger] slots@[j]) is Some ==> slots@[j]->0.id != id,
        },
{
    let mut j: usize = 0;
    while j < slots.len()
        invariant
            j <= slots.len(),
            forall|m: int| 0 <= m < j && (#[trigger] slots@[m]) is Some ==> slots@[m]->0.id != id,
        decreases slots.len() - j,
    {
        let hit = match &slots[j] {
            Some(entry) => entry.id == id,
            None => false,
        };
        if hit {
            return Some(j);
        }
        j = j + 1;
    }
    None
}

/// Puts a stack in the order of a configuration: first the entries the
/// configuration names, in its order, then the entries it does not name, in
/// their old order. The result holds the same entries, each once.
pub fn rearrange(entries: &mut Vec<CanvasLayerEntry>, config: &Vec<CanvasLayerConfig>)
    requires
        unique_ids(entry_views(old(entries)@)),
    ensures
        entry_views(final(entries)@) == rearranged(entry_views(old(entries)@), config@),
        final(entries)@.len() == old(entries)@.len(),
        unique_ids(entry_views(final(entries)@)),
        forall|t: int|
            0 <= t < final(entries)@.len() ==> exists|j: int|
                0 <= j < old(entries)@.len() && (#[trigger] final(entries)@[t]) == old(entries)@[j],
{
    let ghost before = entries@;
    let ghost views = entry_views(before);
    let mut taken: Vec<CanvasLayerEntry> = Vec::new();
    std::mem::swap(entries, &mut taken);
    let mut slots: Vec<Option<CanvasLayerEntry>> = Vec::new();
    for entry in it: taken
        invariant
            it.seq() == before,
            slots@.len() == it.index(),
            forall|j: int| 0 <= j < slots@.len() ==> #[trigger] slots@[j] == Some(before[j]),
    {
        slots.push(Some(entry));
    }
    let ghost mut origin: Seq<int> = Seq::empty();
    let mut k: usize = 0;
    while k < config.len()
        invariant
            k <= config.len(),
            views == entry_views(before),
            unique_ids(views),
            slots@.len() == before.len(),
            forall|j: int|
                0 <= j < slots@.len() ==> (#[trigger] slots@[j]) == Some(before[j]) || slots@[j]
                    is None,
            forall|j: int|
                0 <= j < slots@.len() ==> ((#[trigger] slots@[j]) is None <==> claimed(
                    config@,
                    k as int,
                    before[j].id,
                )),
            entry_views(entries@) == picked(views, config@, k as int),
            origin.len() == entries@.len(),
            forall|t: int|
                0 <= t < origin.len() ==> 0 <= (#[trigger] origin[t]) < before.len() && slots@[origin[t]]
                    is None && entries@[t] == before[origin[t]],
            forall|s: int, t: int| 0 <= s < t < origin.len() ==> origin[s] != origin[t],
            forall|j: int| 0 <= j < slots@.len() && (#[trigger] slots@[j]) is None ==> origin.contains(j),
        decreases config.len() - k,
    {
        let id = config[k].id;
        let ghost slots_before = slots@;
        let ghost entries_before = entries@;
        let mut placed: bool = false;
        if is_last_mention(config, k) {
            match find_slot(&slots, id) {
                Some(j) => {
                    proof {
                        assert forall|m: int| 0 <= m < j implies (#[trigger] views[m]).id != id by {
                            assert(views[m].id == before[m].id);
                            assert(views[j as int].id == before[j as int].id);
                        }
                        assert(is_first_with_id(views, id, j as int));
                        lemma_index_of_id(views, id, j as int);
                    }
                    let entry = slots[j].take().unwrap();
                    entries.push(entry);
                    placed = true;
                    proof {
                        let ghost origin_before = origin;
                        origin = origin.push(j as int);
                        assert(origin[origin.len() - 1] == j);
                        assert forall|m: int|
                            0 <= m < slots@.len() && (#[trigger] slots@[m]) is None implies origin.contains(
                            m,
                        ) by {
                            if m != j {
                                assert(slots_before[m] is None);
                                let t = choose|t: int|
                                    0 <= t < origin_before.len() && origin_before[t] == m;
                                assert(origin[t] == m);
                            }
                        }
                        assert(entry_views(entries@) =~= entry_views(entries_before).push(
                            views[j as int],
                        ));
                    }
                },
                None => {
                    proof {
                        if has_id(views, id) {
                            let j = choose|j: int|
                                0 <= j < views.len() && (#[trigger] views[j]).id == id;
                            assert(slots@[j] is None);
                            let m = choose|m: int|
                                0 <= m < k && m < config@.len() && names_last_at(config@, m) && (
                                #[trigger] config@[m]).id == before[j].id;
                            assert(config@[k as int].id == config@[m].id);
                        }
                    }
                },
            }
        }
        proof {
            assert forall|j: int| 0 <= j < slots@.len() implies ((#[trigger] slots@[j]) is None
                <==> claimed(config@, k + 1, before[j].id)) by {
                let here = before[j].id;
                if claimed(config@, k as int, here) {
                    let m = choose|m: int|
                        0 <= m < k && m < config@.len() && names_last_at(config@, m) && (
                        #[trigger] config@[m]).id == here;
                    assert(0 <= m < k + 1 && config@[m].id == here);
                }
                if claimed(config@, k + 1, here) && !claimed(config@, k as int, here) {
                    let m = choose|m: int|
                        0 <= m < k + 1 && m < config@.len() && names_last_at(config@, m) && (
                        #[trigger] config@[m]).id == here;
                    assert(m == k);
                    assert(views[j].id == here);
                    assert(has_id(views, id));
                    if slots_before[j] is Some {
                        assert(placed);
                    }
                }
                if placed && slots@[j] is None && slots_before[j] is Some {
                    assert(before[j].id == id);
                    assert(names_last_at(config@, k as int) && config@[k as int].id == here);
                }
                if placed && slots_before[j] is Some && slots@[j] is Some {
                    if before[j].id == id {
                        let taken_at = origin.last();
                        assert(views[j].id == views[taken_at].id);
                    }
                }
            }
        }
        k = k + 1;
    }
    let ghost named = entries@;
    let mut j: usize = 0;
    while j < slots.len()
        invariant
            j <= slots.len(),
            k == config.len(),
            views == entry_views(before),
            unique_ids(views),
            slots@.len() == before.len(),
            forall|m: int|
                j <= m < slots@.len() ==> (#[trigger] slots@[m]) == Some(before[m]) || slots@[m]
                    is None,
            forall|m: int|
                j <= m < slots@.len() ==> ((#[trigger] slots@[m]) is None <==> claimed(
                    config@,
                    config@.len() as int,
                    before[m].id,
                )),
            forall|m: int| 0 <= m < j ==> (#[trigger] slots@[m]) is None,
            entry_views(entries@) == picked(views, config@, config@.len() as int) + unmentioned(
                views,
                config@,
                j as int,
            ),
            origin.len() == entries@.len(),
            forall|t: int|
                0 <= t < origin.len() ==> 0 <= (#[trigger] origin[t]) < before.len() && slots@[origin[t]]
                    is None && entries@[t] == before[origin[t]],
            forall|s: int, t: int| 0 <= s < t < origin.len() ==> origin[s] != origin[t],
            forall|m: int| 0 <= m < slots@.len() && (#[trigger] slots@[m]) is None ==> origin.contains(m),
        decreases slots.len() - j,
    {
        let ghost entries_before = entries@;
        let ghost slots_before = slots@;
        proof {
            lemma_named_is_claimed(config@, before[j as int].id);
            assert(views[j as int].id == before[j as int].id);
        }
        match slots[j].take() {
            Some(entry) => {
                entries.push(entry);
                proof {
                    let ghost origin_before = origin;
                    origin = origin.push(j as int);
                    assert(origin[origin.len() - 1] == j);
                    assert forall|m: int|
                        0 <= m < slots@.len() && (#[trigger] slots@[m]) is None implies origin.contains(
                        m,
                    ) by {
                        if m != j {
                            assert(slots_before[m] is None);
                            let t = choose|t: int|
                                0 <= t < origin_before.len() && origin_before[t] == m;
                            assert(origin[t] == m);
                        }
                    }
                    assert(entry_views(entries@) =~= entry_views(entries_before).push(
                        views[j as int],
                    ));
                    assert(entry_views(entries@) =~= picked(
                        views,
                        config@,
                        config@.len() as int,
                    ) + unmentioned(views, config@, j + 1));
                }
            },
            None => {},
        }
        j = j + 1;
    }
    proof {
        assert forall|m: int| 0 <= m < before.len() implies origin.contains(m) by {
            assert(slots@[m] is None);
        }
        lemma_all_placed(origin, before.len() as int);
        let after = entry_views(entries@);
        assert forall|s: int, t: int| 0 <= s < t < after.len() implies (#[trigger] after[s]).id != (
        #[trigger] after[t]).id by {
            assert(after[s].id == views[origin[s]].id);
            assert(after[t].id == views[origin[t]].id);
            if origin[s] < origin[t] {
                assert(views[origin[s]].id != views[origin[t]].id);
            } else {
                assert(views[origin[t]].id != views[origin[s]].id);
            }
        }
        assert forall|t: int| 0 <= t < entries@.len() implies exists|j: int|
            0 <= j < before.len() && (#[trigger] entries@[t]) == before[j] by {
            assert(entries@[t] == before[origin[t]]);
        }
    }
}

/// A list of distinct places below `n` that leaves no place out has `n`
/// entries.
proof fn lemma_all_placed(origin: Seq<int>, n: int)
    requires
        0 <= n,
        forall|t: int| 0 <= t < origin.len() ==> 0 <= #[trigger] origin[t] < n,
        forall|s: int, t: int| 0 <= s < t < origin.len() ==> origin[s] != origin[t],
        forall|j: int| 0 <= j < n ==> origin.contains(j),
    ensures
        origin.len() == n,
{
    let places = Set::new(|j: int| 0 <= j < n);
    assert(origin.no_duplicates());
    origin.unique_seq_to_set();
    assert(origin.to_set() =~= places);
    vstd::set_lib::lemma_int_range(0, n);
    assert(places =~= vstd::set_lib::set_int_range(0, n));
}

/// Gives every entry the visibility of the first line of the configuration
/// that names its id; entries that no line names keep theirs.
pub fn apply_visibility(entries: &mut Vec<CanvasLayerEntry>, config: &Vec<CanvasLayerConfig>)
    ensures
        final(entries)@.len() == old(entries)@.len(),
        forall|i: int|
            0 <= i < final(entries)@.len() ==> (#[trigger] final(entries)@[i])@ == configured_entry(
                old(entries)@[i]@,
                config@,
            ),
{
    let ghost before = entries@;
    let mut i: usize = 0;
    while i < entries.len()
        invariant
            i <= entries.len(),
            entries@.len() == before.len(),
            forall|m: int|
                0 <= m < i ==> (#[trigger] entries@[m])@ == configured_entry(before[m]@, config@),
            forall|m: int| i <= m < entries@.len() ==> #[trigger] entries@[m] == before[m],
        decreases entries.len() - i,
    {
        match first_mention(config, entries[i].id) {
            Some(k) => {
                proof {
                    lemma_names_first(config@, before[i as int].id, k as int);
                }
                entries[i].visible = config[k].visible;
            },
            None => {},
        }
        i = i + 1;
    }
}

} // verus!
