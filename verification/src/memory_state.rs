//! The multi-index partial materialization store: an ordered collection of
//! versioned index stores over one shared row set, replay-tag routing, and a
//! running approximate byte count of live row data.
//!
//! Every mutation is described by a spec-level transition over `StoreModel`,
//! and each public method's contract says that the method performs exactly
//! that transition.

use vstd::prelude::*;

use crate::data::{
    covers, row_size, sat64, sat_usize, DataType, DataValue, LookupResult, Record,
    RecordModel, Tag, Timestamp, clone_row, row_size_bytes, VERSIONED_ROW_HEADER_SIZE,
};
use crate::single_state::{
    entries_bytes, entries_rows, entry_bytes, find_entry, index_insert, index_remove, index_wf, lookup_rows,
    visible_rows, all_rows, evict_list, key_of_some_entry, entry_of, EntryModel, IndexModel,
    SingleState, VersionModel,
};

verus! {

/// The mathematical reading of the whole store.
pub ghost struct StoreModel {
    pub indices: Seq<IndexModel>,
    pub tags: Map<Tag, int>,
    pub mem: u64,
}

/// The multi-index materialization store.
pub struct MemoryState {
    pub state: Vec<SingleState>,
    pub by_tag: Vec<(Tag, usize)>,
    pub mem_size: u64,
}

/// The tag routing map a registration list denotes; a later registration of
/// the same tag overrides an earlier one.
pub open spec fn tag_map(pairs: Seq<(Tag, usize)>) -> Map<Tag, int>
    decreases pairs.len(),
{
    if pairs.len() == 0 {
        Map::empty()
    } else {
        tag_map(pairs.drop_last()).insert(pairs.last().0, pairs.last().1 as int)
    }
}

impl View for MemoryState {
    type V = StoreModel;

    open spec fn view(&self) -> StoreModel {
        StoreModel {
            indices: self.state.deep_view(),
            tags: tag_map(self.by_tag@),
            mem: self.mem_size,
        }
    }
}

/// Well-formedness of the whole store: every index is well formed, every tag
/// routes to an existing index, and no two indices share a key-column set.
pub open spec fn store_wf(s: StoreModel) -> bool {
    &&& forall|i: int| 0 <= i < s.indices.len() ==> index_wf(#[trigger] s.indices[i])
    &&& forall|t: Tag| s.tags.dom().contains(t) ==> 0 <= #[trigger] s.tags[t] < s.indices.len()
    &&& forall|i: int, j: int|
        #![trigger s.indices[i], s.indices[j]]
        0 <= i < j < s.indices.len() ==> s.indices[i].key_cols != s.indices[j].key_cols
}

/// Whether any index of the store is partial.
pub open spec fn store_is_partial(s: StoreModel) -> bool {
    exists|i: int| 0 <= i < s.indices.len() && (#[trigger] s.indices[i]).partial
}

/// Position of the first index keyed on exactly `cols`, or -1.
pub open spec fn find_index(indices: Seq<IndexModel>, cols: Seq<usize>) -> int
    decreases indices.len(),
{
    if indices.len() == 0 {
        -1
    } else if indices[0].key_cols == cols {
        0
    } else {
        let r = find_index(indices.drop_first(), cols);
        if r < 0 {
            -1
        } else {
            r + 1
        }
    }
}

/// Saturating byte addition on the memory estimate.
pub open spec fn add_sat(a: u64, b: u64) -> u64 {
    if a + b <= u64::MAX {
        (a + b) as u64
    } else {
        u64::MAX
    }
}

/// Saturating byte subtraction on the memory estimate.
pub open spec fn sub_sat(a: u64, b: u64) -> u64 {
    if a >= b {
        (a - b) as u64
    } else {
        0
    }
}

/// The bytes a tagged insert charges for one row.
pub open spec fn insert_charge(row: Seq<DataValue>) -> u64 {
    sat64(row_size(row) + VERSIONED_ROW_HEADER_SIZE as nat)
}

/// Fan one insert out to every index, in order; hit iff any index accepted.
pub open spec fn fan_insert(indices: Seq<IndexModel>, row: Seq<DataValue>, ts: Timestamp) -> (
    Seq<IndexModel>,
    bool,
)
    decreases indices.len(),
{
    if indices.len() == 0 {
        (indices, false)
    } else {
        let (pre, hit1) = fan_insert(indices.drop_last(), row, ts);
        let (last2, hit2) = index_insert(indices.last(), row, ts);
        (pre.push(last2), hit1 || hit2)
    }
}

/// Fan one removal out to every index; hit iff any index held a match.
pub open spec fn fan_remove(indices: Seq<IndexModel>, row: Seq<DataValue>) -> (
    Seq<IndexModel>,
    bool,
)
    decreases indices.len(),
{
    if indices.len() == 0 {
        (indices, false)
    } else {
        let (pre, hit1) = fan_remove(indices.drop_last(), row);
        let (last2, hit2) = index_remove(indices.last(), row);
        (pre.push(last2), hit1 || hit2)
    }
}

/// The store after one insert.  A known tag routes the row to that one index
/// and charges payload plus version overhead; an unknown tag accepts the row
/// without storing it; no tag fans the row out to every index and charges the
/// payload once if anything accepted it.
pub open spec fn store_insert(
    s: StoreModel,
    row: Seq<DataValue>,
    tag: Option<Tag>,
    ts: Timestamp,
) -> (StoreModel, bool) {
    match tag {
        Option::Some(t) => {
            if !s.tags.dom().contains(t) {
                (s, true)
            } else {
                let i = s.tags[t];
                let (ix2, hit) = index_insert(s.indices[i], row, ts);
                (
                    StoreModel {
                        indices: s.indices.update(i, ix2),
                        tags: s.tags,
                        mem: add_sat(s.mem, insert_charge(row)),
                    },
                    hit,
                )
            }
        },
        Option::None => {
            let (ixs2, hit) = fan_insert(s.indices, row, ts);
            let mem2 = if hit {
                add_sat(s.mem, sat64(row_size(row)))
            } else {
                s.mem
            };
            (StoreModel { indices: ixs2, tags: s.tags, mem: mem2 }, hit)
        },
    }
}

/// The store after one removal; the memory estimate is deliberately left
/// unchanged (reclamation happens on hole-marking and eviction only).
pub open spec fn store_remove(s: StoreModel, row: Seq<DataValue>) -> (StoreModel, bool) {
    let (ixs2, hit) = fan_remove(s.indices, row);
    (StoreModel { indices: ixs2, tags: s.tags, mem: s.mem }, hit)
}

/// What one insert demands of the row: it must reach the key columns of every
/// index it is routed to.
pub open spec fn insert_ok(s: StoreModel, row: Seq<DataValue>, tag: Option<Tag>) -> bool {
    match tag {
        Option::Some(t) => s.tags.dom().contains(t) ==> covers(
            row,
            s.indices[s.tags[t]].key_cols,
        ),
        Option::None => forall|i: int|
            0 <= i < s.indices.len() ==> covers(row, (#[trigger] s.indices[i]).key_cols),
    }
}

/// What one removal demands of the row.
pub open spec fn remove_ok(s: StoreModel, row: Seq<DataValue>) -> bool {
    forall|i: int| 0 <= i < s.indices.len() ==> covers(row, (#[trigger] s.indices[i]).key_cols)
}

/// One batch step: apply a record and report whether it was absorbed.
pub open spec fn apply_record(
    s: StoreModel,
    rec: RecordModel,
    tag: Option<Tag>,
    ts: Timestamp,
) -> (StoreModel, bool) {
    if rec.positive {
        store_insert(s, rec.row, tag, ts)
    } else {
        store_remove(s, rec.row)
    }
}

/// Apply a batch in order; the second component is the subsequence of records
/// that were absorbed and are to be forwarded downstream.
pub open spec fn process_model(
    s: StoreModel,
    recs: Seq<RecordModel>,
    tag: Option<Tag>,
    ts: Timestamp,
) -> (StoreModel, Seq<RecordModel>)
    decreases recs.len(),
{
    if recs.len() == 0 {
        (s, Seq::empty())
    } else {
        let (s1, kept) = process_model(s, recs.drop_last(), tag, ts);
        let (s2, keep) = apply_record(s1, recs.last(), tag, ts);
        (s2, if keep { kept.push(recs.last()) } else { kept })
    }
}

/// What a whole batch demands of its rows.
pub open spec fn record_ok(s: StoreModel, rec: RecordModel, tag: Option<Tag>) -> bool {
    if rec.positive {
        insert_ok(s, rec.row, tag)
    } else {
        remove_ok(s, rec.row)
    }
}

pub open spec fn batch_ok(s: StoreModel, recs: Seq<RecordModel>, tag: Option<Tag>) -> bool {
    forall|i: int| 0 <= i < recs.len() ==> record_ok(s, #[trigger] recs[i], tag)
}

/// In a fully materialized store every record of the batch must be absorbed;
/// this says each step of the batch reports a hit.
pub open spec fn all_hit(s: StoreModel, recs: Seq<RecordModel>, tag: Option<Tag>, ts: Timestamp) -> bool
    decreases recs.len(),
{
    if recs.len() == 0 {
        true
    } else {
        all_hit(s, recs.drop_last(), tag, ts) && apply_record(
            process_model(s, recs.drop_last(), tag, ts).0,
            recs.last(),
            tag,
            ts,
        ).1
    }
}

/// Two stores with the same index layout (count, key columns, partial flags)
/// and the same tag routing.
pub open spec fn same_shape(a: StoreModel, b: StoreModel) -> bool {
    &&& b.indices.len() == a.indices.len()
    &&& forall|i: int|
        0 <= i < a.indices.len() ==> (#[trigger] b.indices[i]).key_cols == a.indices[i].key_cols
            && b.indices[i].partial == a.indices[i].partial
    &&& b.tags == a.tags
}

/// Registering replay tags onto the index at position `i`, in order.
pub open spec fn tags_fold(m: Map<Tag, int>, ts: Seq<Tag>, i: int) -> Map<Tag, int>
    decreases ts.len(),
{
    if ts.len() == 0 {
        m
    } else {
        tags_fold(m, ts.drop_last(), i).insert(ts.last(), i)
    }
}

/// A fresh index backfilled with every version of `vs`, in order.
pub open spec fn backfill_versions(ix: IndexModel, vs: Seq<VersionModel>) -> IndexModel
    decreases vs.len(),
{
    if vs.len() == 0 {
        ix
    } else {
        index_insert(backfill_versions(ix, vs.drop_last()), vs.last().row, vs.last().ts).0
    }
}

/// A fresh index backfilled from a source index's entries, entries in order,
/// versions in order.
pub open spec fn backfill_entries(ix: IndexModel, entries: Seq<EntryModel>) -> IndexModel
    decreases entries.len(),
{
    if entries.len() == 0 {
        ix
    } else {
        backfill_versions(backfill_entries(ix, entries.drop_last()), entries.last().versions)
    }
}

/// Every stored row of `ix` reaches the columns `cols`.
pub open spec fn index_rows_cover(ix: IndexModel, cols: Seq<usize>) -> bool {
    forall|e: int, v: int|
        #![trigger ix.entries[e].versions[v]]
        0 <= e < ix.entries.len() && 0 <= v < ix.entries[e].versions.len() ==> covers(
            ix.entries[e].versions[v].row,
            cols,
        )
}

/// The index a key registration creates before any backfill.
pub open spec fn empty_index(cols: Seq<usize>, partial: bool) -> IndexModel {
    IndexModel { key_cols: cols, partial, entries: Seq::empty() }
}

/// The store after `add_key(cols, tags_opt)`: an existing index only gains
/// the new tag registrations; otherwise a new index is appended, partial iff
/// tags were given, and a new fully materialized index is backfilled from the
/// first index when one exists.
pub open spec fn store_add_key(s: StoreModel, cols: Seq<usize>, tags_opt: Option<Seq<Tag>>) -> StoreModel {
    let e = find_index(s.indices, cols);
    let target = if e >= 0 {
        e
    } else {
        s.indices.len() as int
    };
    let tags2 = match tags_opt {
        Option::Some(ts) => tags_fold(s.tags, ts, target),
        Option::None => s.tags,
    };
    if e >= 0 {
        StoreModel { indices: s.indices, tags: tags2, mem: s.mem }
    } else {
        let newix = match tags_opt {
            Option::Some(_) => empty_index(cols, true),
            Option::None => if s.indices.len() == 0 {
                empty_index(cols, false)
            } else {
                backfill_entries(empty_index(cols, false), s.indices[0].entries)
            },
        };
        StoreModel { indices: s.indices.push(newix), tags: tags2, mem: s.mem }
    }
}

/// The bytes `mark_hole` frees for a key under a tag's index.
pub open spec fn hole_bytes(s: StoreModel, key: Seq<DataValue>, t: Tag) -> u64 {
    let ix = s.indices[s.tags[t]];
    let e = find_entry(ix.entries, key);
    if e < 0 {
        0
    } else {
        sat64(entry_bytes(ix.entries[e]))
    }
}

/// The store after `mark_hole(key, t)`: the key's entry is dropped and the
/// estimate decreases by exactly the bytes that entry held.
pub open spec fn store_mark_hole(s: StoreModel, key: Seq<DataValue>, t: Tag) -> StoreModel {
    let i = s.tags[t];
    let ix = s.indices[i];
    let e = find_entry(ix.entries, key);
    let ix2 = if e < 0 {
        ix
    } else {
        IndexModel { key_cols: ix.key_cols, partial: ix.partial, entries: ix.entries.remove(e) }
    };
    StoreModel {
        indices: s.indices.update(i, ix2),
        tags: s.tags,
        mem: (s.mem - hole_bytes(s, key, t)) as u64,
    }
}

/// The store after `mark_filled(key, t)`: the key gains a fresh, empty entry.
pub open spec fn store_mark_filled(s: StoreModel, key: Seq<DataValue>, t: Tag) -> StoreModel {
    let i = s.tags[t];
    let ix = s.indices[i];
    let ix2 = IndexModel {
        key_cols: ix.key_cols,
        partial: ix.partial,
        entries: ix.entries.push(EntryModel { key, versions: Seq::empty() }),
    };
    StoreModel { indices: s.indices.update(i, ix2), tags: s.tags, mem: s.mem }
}

/// Total stored row versions over a sequence of indices.
pub open spec fn indices_rows(ixs: Seq<IndexModel>) -> nat
    decreases ixs.len(),
{
    if ixs.len() == 0 {
        0
    } else {
        indices_rows(ixs.drop_last()) + entries_rows(ixs.last().entries)
    }
}

/// Total stored row versions over the whole store.
pub open spec fn store_rows(s: StoreModel) -> nat {
    indices_rows(s.indices)
}

/// What one randomized eviction did to the index at position `i`: only that
/// index changed, it kept its identity, exactly `min(count, entries)` keys
/// left, every evicted key was a stored key, every surviving entry was
/// already stored, and the reported `freed` is exactly the bytes the dropped
/// entries held (clamped at `u64::MAX`).
pub open spec fn evicted_at(
    s0: StoreModel,
    s1: StoreModel,
    i: int,
    kc: Seq<usize>,
    keys: Seq<Seq<DataValue>>,
    count: int,
    freed: u64,
) -> bool {
    &&& s1.indices.len() == s0.indices.len()
    &&& forall|j: int|
        0 <= j < s0.indices.len() && j != i ==> #[trigger] s1.indices[j] == s0.indices[j]
    &&& kc == s0.indices[i].key_cols
    &&& s1.indices[i].key_cols == s0.indices[i].key_cols
    &&& s1.indices[i].partial == s0.indices[i].partial
    &&& keys.len() == (if count <= s0.indices[i].entries.len() {
        count
    } else {
        s0.indices[i].entries.len() as int
    })
    &&& s1.indices[i].entries.len() == s0.indices[i].entries.len() - keys.len()
    &&& forall|j: int|
        0 <= j < keys.len() ==> key_of_some_entry(s0.indices[i].entries, #[trigger] keys[j])
    &&& forall|j: int|
        0 <= j < s1.indices[i].entries.len() ==> entry_of(
            s0.indices[i].entries,
            #[trigger] s1.indices[i].entries[j],
        )
    &&& entries_bytes(s1.indices[i].entries) <= entries_bytes(s0.indices[i].entries)
    &&& freed == sat64(
        (entries_bytes(s0.indices[i].entries) - entries_bytes(s1.indices[i].entries)) as nat,
    )
}

/// `find_index` returns -1 exactly when no index is keyed on `cols`, and
/// otherwise the position of the first index that is.
pub proof fn lemma_find_index_spec(indices: Seq<IndexModel>, cols: Seq<usize>)
    ensures
        find_index(indices, cols) == -1 || (0 <= find_index(indices, cols) < indices.len()),
        find_index(indices, cols) == -1 ==> forall|j: int|
            0 <= j < indices.len() ==> (#[trigger] indices[j]).key_cols != cols,
        find_index(indices, cols) >= 0 ==> indices[find_index(indices, cols)].key_cols == cols
            && forall|j: int|
            0 <= j < find_index(indices, cols) ==> (#[trigger] indices[j]).key_cols != cols,
    decreases indices.len(),
{
    if indices.len() == 0 {
    } else if indices[0].key_cols == cols {
    } else {
        lemma_find_index_spec(indices.drop_first(), cols);
        assert forall|j: int| 1 <= j < indices.len() implies indices.drop_first()[j - 1]
            == indices[j] by {}
    }
}

/// The first position keyed on `cols` is what `find_index` returns.
pub proof fn lemma_find_index_at(indices: Seq<IndexModel>, cols: Seq<usize>, i: int)
    requires
        0 <= i < indices.len(),
        indices[i].key_cols == cols,
        forall|j: int| 0 <= j < i ==> (#[trigger] indices[j]).key_cols != cols,
    ensures
        find_index(indices, cols) == i,
    decreases i,
{
    if i == 0 {
    } else {
        assert(indices[0].key_cols != cols);
        assert forall|j: int| 0 <= j < i - 1 implies (#[trigger] indices.drop_first()[j]).key_cols
            != cols by {
            assert(indices.drop_first()[j] == indices[j + 1]);
        }
        assert(indices.drop_first()[i - 1] == indices[i]);
        lemma_find_index_at(indices.drop_first(), cols, i - 1);
    }
}

/// With no index keyed on `cols`, `find_index` returns -1.
pub proof fn lemma_find_index_none(indices: Seq<IndexModel>, cols: Seq<usize>)
    requires
        forall|j: int| 0 <= j < indices.len() ==> (#[trigger] indices[j]).key_cols != cols,
    ensures
        find_index(indices, cols) == -1,
    decreases indices.len(),
{
    if indices.len() == 0 {
    } else {
        assert forall|j: int| 0 <= j < indices.len() - 1 implies (
        #[trigger] indices.drop_first()[j]).key_cols != cols by {
            assert(indices.drop_first()[j] == indices[j + 1]);
        }
        lemma_find_index_none(indices.drop_first(), cols);
    }
}

/// The registration list's map: the last registration of a tag wins.
pub proof fn lemma_tag_map_at(pairs: Seq<(Tag, usize)>, m: int)
    requires
        0 <= m < pairs.len(),
        forall|j: int| m < j < pairs.len() ==> (#[trigger] pairs[j]).0 != pairs[m].0,
    ensures
        tag_map(pairs).dom().contains(pairs[m].0),
        tag_map(pairs)[pairs[m].0] == pairs[m].1 as int,
    decreases pairs.len(),
{
    if m == pairs.len() - 1 {
    } else {
        assert forall|j: int| m < j < pairs.len() - 1 implies (#[trigger] pairs.drop_last()[j]).0
            != pairs.drop_last()[m].0 by {
            assert(pairs.drop_last()[j] == pairs[j]);
        }
        lemma_tag_map_at(pairs.drop_last(), m);
        assert(pairs.last().0 != pairs[m].0);
    }
}

/// A tag never registered is not in the map.
pub proof fn lemma_tag_map_none(pairs: Seq<(Tag, usize)>, t: Tag)
    requires
        forall|j: int| 0 <= j < pairs.len() ==> (#[trigger] pairs[j]).0 != t,
    ensures
        !tag_map(pairs).dom().contains(t),
    decreases pairs.len(),
{
    if pairs.len() == 0 {
    } else {
        assert forall|j: int| 0 <= j < pairs.len() - 1 implies (#[trigger] pairs.drop_last()[j]).0
            != t by {
            assert(pairs.drop_last()[j] == pairs[j]);
        }
        lemma_tag_map_none(pairs.drop_last(), t);
    }
}

/// Folding registrations onto target `i` keeps every route below `bound`.
pub proof fn lemma_tags_fold_range(m: Map<Tag, int>, ts: Seq<Tag>, i: int, bound: int)
    requires
        forall|t: Tag| m.dom().contains(t) ==> 0 <= #[trigger] m[t] < bound,
        0 <= i < bound,
    ensures
        forall|t: Tag|
            tags_fold(m, ts, i).dom().contains(t) ==> 0 <= #[trigger] tags_fold(m, ts, i)[t]
                < bound,
    decreases ts.len(),
{
    if ts.len() == 0 {
    } else {
        lemma_tags_fold_range(m, ts.drop_last(), i, bound);
        assert forall|t: Tag| tags_fold(m, ts, i).dom().contains(t) implies 0 <= #[trigger] tags_fold(
            m,
            ts,
            i,
        )[t] < bound by {
            if t != ts.last() {
                assert(tags_fold(m, ts, i)[t] == tags_fold(m, ts.drop_last(), i)[t]);
            }
        }
    }
}

/// Pointwise description of `fan_insert`.
pub proof fn lemma_fan_insert(indices: Seq<IndexModel>, row: Seq<DataValue>, ts: Timestamp)
    ensures
        fan_insert(indices, row, ts).0.len() == indices.len(),
        forall|i: int|
            0 <= i < indices.len() ==> fan_insert(indices, row, ts).0[i] == index_insert(
                #[trigger] indices[i],
                row,
                ts,
            ).0,
        fan_insert(indices, row, ts).1 == exists|i: int|
            0 <= i < indices.len() && index_insert(#[trigger] indices[i], row, ts).1,
    decreases indices.len(),
{
    if indices.len() == 0 {
    } else {
        lemma_fan_insert(indices.drop_last(), row, ts);
        assert forall|i: int| 0 <= i < indices.len() - 1 implies indices.drop_last()[i]
            == indices[i] by {}
        let (pre, hit1) = fan_insert(indices.drop_last(), row, ts);
        let (last2, hit2) = index_insert(indices.last(), row, ts);
        assert(fan_insert(indices, row, ts).0 == pre.push(last2));
        if hit1 {
            let w = choose|i: int|
                0 <= i < indices.drop_last().len() && index_insert(
                    #[trigger] indices.drop_last()[i],
                    row,
                    ts,
                ).1;
            assert(index_insert(indices[w], row, ts).1);
        }
        if hit2 {
            assert(index_insert(indices[indices.len() - 1], row, ts).1);
        }
        if !hit1 && !hit2 {
            assert forall|i: int| 0 <= i < indices.len() implies !index_insert(
                #[trigger] indices[i],
                row,
                ts,
            ).1 by {
                if i < indices.len() - 1 {
                    assert(indices.drop_last()[i] == indices[i]);
                }
            }
        }
    }
}

/// Pointwise description of `fan_remove`.
pub proof fn lemma_fan_remove(indices: Seq<IndexModel>, row: Seq<DataValue>)
    ensures
        fan_remove(indices, row).0.len() == indices.len(),
        forall|i: int|
            0 <= i < indices.len() ==> fan_remove(indices, row).0[i] == index_remove(
                #[trigger] indices[i],
                row,
            ).0,
        fan_remove(indices, row).1 == exists|i: int|
            0 <= i < indices.len() && index_remove(#[trigger] indices[i], row).1,
    decreases indices.len(),
{
    if indices.len() == 0 {
    } else {
        lemma_fan_remove(indices.drop_last(), row);
        assert forall|i: int| 0 <= i < indices.len() - 1 implies indices.drop_last()[i]
            == indices[i] by {}
        let (pre, hit1) = fan_remove(indices.drop_last(), row);
        let (last2, hit2) = index_remove(indices.last(), row);
        assert(fan_remove(indices, row).0 == pre.push(last2));
        if hit1 {
            let w = choose|i: int|
                0 <= i < indices.drop_last().len() && index_remove(
                    #[trigger] indices.drop_last()[i],
                    row,
                ).1;
            assert(index_remove(indices[w], row).1);
        }
        if hit2 {
            assert(index_remove(indices[indices.len() - 1], row).1);
        }
        if !hit1 && !hit2 {
            assert forall|i: int| 0 <= i < indices.len() implies !index_remove(
                #[trigger] indices[i],
                row,
            ).1 by {
                if i < indices.len() - 1 {
                    assert(indices.drop_last()[i] == indices[i]);
                }
            }
        }
    }
}

/// One batch step keeps the store's shape.
pub proof fn lemma_apply_shape(s: StoreModel, rec: RecordModel, tag: Option<Tag>, ts: Timestamp)
    requires
        store_wf(s),
    ensures
        same_shape(s, apply_record(s, rec, tag, ts).0),
{
    if rec.positive {
        match tag {
            Option::Some(t) => {
                if s.tags.dom().contains(t) {
                    assert(0 <= s.tags[t] < s.indices.len());
                }
            },
            Option::None => {
                lemma_fan_insert(s.indices, rec.row, ts);
            },
        }
    } else {
        lemma_fan_remove(s.indices, rec.row);
    }
}

/// A record acceptable against one store is acceptable against any store of
/// the same shape.
pub proof fn lemma_record_ok_shape(a: StoreModel, b: StoreModel, rec: RecordModel, tag: Option<Tag>)
    requires
        store_wf(a),
        same_shape(a, b),
        record_ok(a, rec, tag),
    ensures
        record_ok(b, rec, tag),
{
    if rec.positive {
        match tag {
            Option::Some(t) => {
                if b.tags.dom().contains(t) {
                    let idx = a.tags[t];
                    assert(0 <= idx < a.indices.len());
                    assert(b.indices[idx].key_cols == a.indices[idx].key_cols);
                }
            },
            Option::None => {
                assert forall|i: int| 0 <= i < b.indices.len() implies covers(
                    rec.row,
                    (#[trigger] b.indices[i]).key_cols,
                ) by {
                    assert(covers(rec.row, a.indices[i].key_cols));
                }
            },
        }
    } else {
        assert forall|i: int| 0 <= i < b.indices.len() implies covers(
            rec.row,
            (#[trigger] b.indices[i]).key_cols,
        ) by {
            assert(covers(rec.row, a.indices[i].key_cols));
        }
    }
}

/// Whether two column lists are equal.
fn cols_equal(a: &Vec<usize>, b: &Vec<usize>) -> (r: bool)
    ensures
        r == (a@ == b@),
{
    if a.len() != b.len() {
        return false;
    }
    let mut i: usize = 0;
    while i < a.len()
        invariant
            0 <= i <= a.len(),
            a.len() == b.len(),
            forall|j: int| 0 <= j < i ==> a@[j] == b@[j],
        decreases a.len() - i,
    {
        if a[i] != b[i] {
            return false;
        }
        i = i + 1;
    }
    proof {
        assert(a@ =~= b@);
    }
    true
}

/// A fresh copy of a column list.
fn copy_cols(a: &Vec<usize>) -> (r: Vec<usize>)
    ensures
        r@ == a@,
{
    let mut r: Vec<usize> = Vec::new();
    let mut i: usize = 0;
    while i < a.len()
        invariant
            0 <= i <= a.len(),
            r@ =~= a@.take(i as int),
        decreases a.len() - i,
    {
        r.push(a[i]);
        i = i + 1;
    }
    proof {
        assert(r@ =~= a@);
    }
    r
}

/// Taking an element out and putting another back at the same position is a
/// pointwise update.
pub proof fn lemma_replace_at<T>(s: Seq<T>, i: int, x: T)
    requires
        0 <= i < s.len(),
    ensures
        s.remove(i).insert(i, x).len() == s.len(),
        forall|j: int|
            0 <= j < s.len() ==> #[trigger] s.remove(i).insert(i, x)[j] == (if j == i {
                x
            } else {
                s[j]
            }),
{
    let rem = s.remove(i);
    let res = rem.insert(i, x);
    assert forall|j: int| 0 <= j < s.len() implies #[trigger] res[j] == (if j == i {
        x
    } else {
        s[j]
    }) by {
        if j < i {
            assert(rem[j] == s[j]);
        } else if j > i {
            assert(rem[j - 1] == s[j]);
        }
    }
}

/// A prefix of an all-hit batch is all-hit.
pub proof fn lemma_all_hit_take(
    s: StoreModel,
    recs: Seq<RecordModel>,
    tag: Option<Tag>,
    ts: Timestamp,
    i: int,
)
    requires
        all_hit(s, recs, tag, ts),
        0 <= i <= recs.len(),
    ensures
        all_hit(s, recs.take(i), tag, ts),
    decreases recs.len() - i,
{
    if i == recs.len() {
        assert(recs.take(i) =~= recs);
    } else {
        lemma_all_hit_take(s, recs, tag, ts, i + 1);
        assert(recs.take(i + 1).drop_last() =~= recs.take(i));
        assert(all_hit(s, recs.take(i), tag, ts));
    }
}

impl Default for MemoryState {
    /// An empty store: no indices, no tag routes, estimate zero.
    fn default() -> (s: MemoryState)
        ensures
            s.inv(),
            s@.indices.len() == 0,
            s@.tags == Map::<Tag, int>::empty(),
            s@.mem == 0,
    {
        let s = MemoryState { state: Vec::new(), by_tag: Vec::new(), mem_size: 0 };
        proof {
            assert(s@.indices =~= Seq::<IndexModel>::empty());
        }
        s
    }
}

impl MemoryState {
    /// The store's invariant: see `store_wf`.
    pub open spec fn inv(&self) -> bool {
        store_wf(self@)
    }

    /// Size of the store handle itself, owned collections excluded.
    pub fn size_of(&self) -> (r: u64)
        ensures
            r as nat == vstd::layout::size_of::<MemoryState>(),
    {
        core::mem::size_of::<MemoryState>() as u64
    }

    /// The running approximate byte count of live row data.
    pub fn deep_size_of(&self) -> (r: u64)
        ensures
            r == self@.mem,
    {
        self.mem_size
    }

    /// True iff at least one index exists.
    pub fn is_useful(&self) -> (r: bool)
        ensures
            r == (self@.indices.len() > 0),
    {
        self.state.len() > 0
    }

    /// True iff any index is partial.
    pub fn is_partial(&self) -> (r: bool)
        ensures
            r == store_is_partial(self@),
    {
        let mut i: usize = 0;
        while i < self.state.len()
            invariant
                0 <= i <= self.state.len(),
                forall|j: int| 0 <= j < i ==> !(#[trigger] self@.indices[j]).partial,
            decreases self.state.len() - i,
        {
            let p = self.state[i].partial();
            proof {
                assert(self@.indices[i as int] == self.state@[i as int]@);
            }
            if p {
                return true;
            }
            i = i + 1;
        }
        false
    }

    /// Position of the index keyed on exactly `cols`, if one exists.
    pub fn state_for(&self, cols: &Vec<usize>) -> (r: Option<usize>)
        ensures
            match r {
                Option::Some(i) => find_index(self@.indices, cols@) == i as int && i
                    < self.state.len(),
                Option::None => find_index(self@.indices, cols@) == -1,
            },
    {
        let mut i: usize = 0;
        while i < self.state.len()
            invariant
                0 <= i <= self.state.len(),
                forall|j: int| 0 <= j < i ==> (#[trigger] self@.indices[j]).key_cols != cols@,
            decreases self.state.len() - i,
        {
            let eq = cols_equal(self.state[i].key(), cols);
            proof {
                assert(self@.indices[i as int] == self.state@[i as int]@);
            }
            if eq {
                proof {
                    lemma_find_index_at(self@.indices, cols@, i as int);
                }
                return Option::Some(i);
            }
            i = i + 1;
        }
        proof {
            lemma_find_index_none(self@.indices, cols@);
        }
        Option::None
    }

    /// The index position a tag routes to, if the tag is registered.
    fn tag_index(&self, t: Tag) -> (r: Option<usize>)
        ensures
            match r {
                Option::Some(i) => self@.tags.dom().contains(t) && self@.tags[t] == i as int,
                Option::None => !self@.tags.dom().contains(t),
            },
    {
        let mut j: usize = self.by_tag.len();
        while j > 0
            invariant
                0 <= j <= self.by_tag.len(),
                forall|m: int| j <= m < self.by_tag@.len() ==> (#[trigger] self.by_tag@[m]).0 != t,
            decreases j,
        {
            j = j - 1;
            let p = self.by_tag[j];
            if p.0 == t {
                proof {
                    lemma_tag_map_at(self.by_tag@, j as int);
                }
                return Option::Some(p.1);
            }
        }
        proof {
            lemma_tag_map_none(self.by_tag@, t);
        }
        Option::None
    }

    /// Insert one row (see `store_insert`): a known tag routes it to that one
    /// index, an unknown tag reports a hit without storing, and no tag fans
    /// the row out to every index.
    pub fn insert(&mut self, r: Vec<DataType>, partial_tag: Option<Tag>, ts: Timestamp) -> (hit:
        bool)
        requires
            old(self).inv(),
            insert_ok(old(self)@, r.deep_view(), partial_tag),
        ensures
            final(self).inv(),
            final(self)@ == store_insert(old(self)@, r.deep_view(), partial_tag, ts).0,
            hit == store_insert(old(self)@, r.deep_view(), partial_tag, ts).1,
    {
        let ghost s0 = self@;
        let ghost rd = r.deep_view();
        match partial_tag {
            Option::Some(tag) => {
                match self.tag_index(tag) {
                    Option::None => true,
                    Option::Some(i) => {
                        proof {
                            assert(0 <= (i as int) < s0.indices.len());
                            assert(self.state@.len() == s0.indices.len());
                        }
                        let charge = row_size_bytes(&r).saturating_add(VERSIONED_ROW_HEADER_SIZE);
                        self.mem_size = self.mem_size.saturating_add(charge);
                        proof {
                            assert(self.mem_size == add_sat(s0.mem, insert_charge(rd)));
                            assert(self@.indices[i as int] == self.state@[i as int]@);
                            assert(covers(rd, s0.indices[i as int].key_cols));
                        }
                        let ghost st_pre = self.state@;
                        let mut ix = self.state.remove(i);
                        let h = ix.insert_row(r, ts);
                        let ghost ixg = ix;
                        self.state.insert(i, ix);
                        proof {
                            let target = store_insert(s0, rd, partial_tag, ts).0;
                            lemma_replace_at(st_pre, i as int, ixg);
                            assert(self.state@ == st_pre.remove(i as int).insert(i as int, ixg));
                            assert forall|j: int| 0 <= j < self@.indices.len() implies (
                            #[trigger] self@.indices[j]) == (if j == i as int {
                                ixg@
                            } else {
                                s0.indices[j]
                            }) by {
                                assert(self@.indices[j] == self.state@[j]@);
                                if j != i as int {
                                    assert(self.state@[j] == st_pre[j]);
                                    assert(st_pre[j]@ == s0.indices[j]);
                                }
                            }
                            assert(self@.indices =~= target.indices);
                            assert(self@ == target);
                            assert forall|j: int| 0 <= j < self@.indices.len() implies index_wf(
                                #[trigger] self@.indices[j],
                            ) by {
                                if j == i as int {
                                    assert(self@.indices[j] == ixg@);
                                } else {
                                    assert(self@.indices[j] == s0.indices[j]);
                                    assert(index_wf(s0.indices[j]));
                                }
                            }
                            assert forall|a: int, b: int|
                                #![trigger self@.indices[a], self@.indices[b]]
                                0 <= a < b < self@.indices.len() implies self@.indices[a].key_cols
                                != self@.indices[b].key_cols by {
                                assert(self@.indices[a].key_cols == s0.indices[a].key_cols);
                                assert(self@.indices[b].key_cols == s0.indices[b].key_cols);
                            }
                        }
                        h
                    },
                }
            },
            Option::None => {
                let mut hit_any = false;
                let mut i: usize = 0;
                while i < self.state.len()
                    invariant
                        0 <= i <= self.state.len(),
                        self.state.len() == s0.indices.len(),
                        rd == r.deep_view(),
                        insert_ok(s0, rd, Option::<Tag>::None),
                        self.by_tag@ == old(self).by_tag@,
                        self.mem_size == s0.mem,
                        forall|j: int|
                            0 <= j < i ==> (#[trigger] self@.indices[j]) == index_insert(
                                s0.indices[j],
                                rd,
                                ts,
                            ).0,
                        forall|j: int|
                            i <= j < self.state.len() ==> (#[trigger] self@.indices[j])
                                == s0.indices[j],
                        forall|j: int|
                            0 <= j < self.state.len() ==> index_wf(#[trigger] self@.indices[j]),
                        hit_any == exists|j: int|
                            0 <= j < i && index_insert(#[trigger] s0.indices[j], rd, ts).1,
                    decreases self.state.len() - i,
                {
                    let ghost st_pre = self.state@;
                    let ghost dv_pre = self@.indices;
                    proof {
                        assert(self@.indices[i as int] == self.state@[i as int]@);
                        assert(covers(rd, s0.indices[i as int].key_cols));
                    }
                    let mut ix = self.state.remove(i);
                    let row2 = clone_row(&r);
                    let h = ix.insert_row(row2, ts);
                    let ghost ixg = ix;
                    self.state.insert(i, ix);
                    let ghost prev_hit = hit_any;
                    hit_any = hit_any || h;
                    proof {
                        lemma_replace_at(st_pre, i as int, ixg);
                        assert(self.state@ == st_pre.remove(i as int).insert(i as int, ixg));
                        assert forall|j: int| 0 <= j < self.state@.len() implies #[trigger] self@.indices[j]
                            == (if j <= i as int {
                            index_insert(s0.indices[j], rd, ts).0
                        } else {
                            s0.indices[j]
                        }) by {
                            assert(self@.indices[j] == self.state@[j]@);
                            if j != i as int {
                                assert(self.state@[j] == st_pre[j]);
                                assert(st_pre[j]@ == dv_pre[j]);
                            }
                        }
                        assert forall|j: int| 0 <= j < self.state.len() implies index_wf(
                            #[trigger] self@.indices[j],
                        ) by {
                            if j == i as int {
                                assert(self@.indices[j] == ixg@);
                            } else {
                                assert(self@.indices[j] == dv_pre[j]);
                                assert(index_wf(dv_pre[j]));
                            }
                        }
                        if hit_any {
                            if prev_hit {
                                let w = choose|j: int|
                                    0 <= j < i as int && index_insert(
                                        #[trigger] s0.indices[j],
                                        rd,
                                        ts,
                                    ).1;
                                assert(index_insert(s0.indices[w], rd, ts).1);
                            } else {
                                assert(index_insert(s0.indices[i as int], rd, ts).1);
                            }
                        }
                    }
                    i = i + 1;
                }
                proof {
                    lemma_fan_insert(s0.indices, rd, ts);
                    assert forall|j: int| 0 <= j < self@.indices.len() implies #[trigger] self@.indices[j]
                        == fan_insert(s0.indices, rd, ts).0[j] by {
                        assert(self@.indices[j] == index_insert(s0.indices[j], rd, ts).0);
                        assert(fan_insert(s0.indices, rd, ts).0[j] == index_insert(
                            s0.indices[j],
                            rd,
                            ts,
                        ).0);
                    }
                    assert(self@.indices =~= fan_insert(s0.indices, rd, ts).0);
                    assert(hit_any == fan_insert(s0.indices, rd, ts).1);
                    assert forall|a: int, b: int|
                        #![trigger self@.indices[a], self@.indices[b]]
                        0 <= a < b < self@.indices.len() implies self@.indices[a].key_cols
                        != self@.indices[b].key_cols by {
                        assert(self@.indices[a].key_cols == s0.indices[a].key_cols);
                        assert(self@.indices[b].key_cols == s0.indices[b].key_cols);
                    }
                }
                if hit_any {
                    let rb = row_size_bytes(&r);
                    self.mem_size = self.mem_size.saturating_add(rb);
                }
                proof {
                    let target = store_insert(s0, rd, partial_tag, ts).0;
                    assert(self@.indices == fan_insert(s0.indices, rd, ts).0);
                    assert(self@.mem == target.mem);
                    assert(self@ == target);
                }
                hit_any
            },
        }
    }

    /// Attempt removal of a row matching `r` from every index; true iff any
    /// index found and removed a match.  The memory estimate is deliberately
    /// not decremented here (see `store_remove`).
    pub fn remove(&mut self, r: &Vec<DataType>, ts: Timestamp) -> (hit: bool)
        requires
            old(self).inv(),
            remove_ok(old(self)@, r.deep_view()),
        ensures
            final(self).inv(),
            final(self)@ == store_remove(old(self)@, r.deep_view()).0,
            hit == store_remove(old(self)@, r.deep_view()).1,
    {
        let ghost s0 = self@;
        let ghost rd = r.deep_view();
        let mut hit = false;
        let mut i: usize = 0;
        while i < self.state.len()
            invariant
                0 <= i <= self.state.len(),
                self.state.len() == s0.indices.len(),
                rd == r.deep_view(),
                remove_ok(s0, rd),
                self.by_tag@ == old(self).by_tag@,
                self.mem_size == s0.mem,
                forall|j: int|
                    0 <= j < i ==> (#[trigger] self@.indices[j]) == index_remove(
                        s0.indices[j],
                        rd,
                    ).0,
                forall|j: int|
                    i <= j < self.state.len() ==> (#[trigger] self@.indices[j]) == s0.indices[j],
                forall|j: int| 0 <= j < self.state.len() ==> index_wf(#[trigger] self@.indices[j]),
                hit == exists|j: int|
                    0 <= j < i && index_remove(#[trigger] s0.indices[j], rd).1,
            decreases self.state.len() - i,
        {
            let ghost st_pre = self.state@;
            let ghost dv_pre = self@.indices;
            proof {
                assert(self@.indices[i as int] == self.state@[i as int]@);
                assert(covers(rd, s0.indices[i as int].key_cols));
            }
            let mut ix = self.state.remove(i);
            let ghost prev_hit = hit;
            ix.remove_row(r, &mut hit, ts);
            let ghost ixg = ix;
            self.state.insert(i, ix);
            proof {
                lemma_replace_at(st_pre, i as int, ixg);
                assert(self.state@ == st_pre.remove(i as int).insert(i as int, ixg));
                assert forall|j: int| 0 <= j < self.state@.len() implies #[trigger] self@.indices[j]
                    == (if j <= i as int {
                    index_remove(s0.indices[j], rd).0
                } else {
                    s0.indices[j]
                }) by {
                    assert(self@.indices[j] == self.state@[j]@);
                    if j != i as int {
                        assert(self.state@[j] == st_pre[j]);
                        assert(st_pre[j]@ == dv_pre[j]);
                    }
                }
                assert forall|j: int| 0 <= j < self.state.len() implies index_wf(
                    #[trigger] self@.indices[j],
                ) by {
                    if j == i as int {
                        assert(self@.indices[j] == ixg@);
                    } else {
                        assert(self@.indices[j] == dv_pre[j]);
                        assert(index_wf(dv_pre[j]));
                    }
                }
                if hit {
                    if prev_hit {
                        let w = choose|j: int|
                            0 <= j < i as int && index_remove(#[trigger] s0.indices[j], rd).1;
                        assert(index_remove(s0.indices[w], rd).1);
                    } else {
                        assert(index_remove(s0.indices[i as int], rd).1);
                    }
                }
            }
            i = i + 1;
        }
        proof {
            lemma_fan_remove(s0.indices, rd);
            let target = store_remove(s0, rd).0;
            assert forall|j: int| 0 <= j < self@.indices.len() implies #[trigger] self@.indices[j]
                == target.indices[j] by {
                assert(self@.indices[j] == index_remove(s0.indices[j], rd).0);
                assert(fan_remove(s0.indices, rd).0[j] == index_remove(s0.indices[j], rd).0);
            }
            assert(self@.indices =~= target.indices);
            assert(hit == fan_remove(s0.indices, rd).1);
            assert(self@ == target);
            assert forall|a: int, b: int|
                #![trigger self@.indices[a], self@.indices[b]]
                0 <= a < b < self@.indices.len() implies self@.indices[a].key_cols
                != self@.indices[b].key_cols by {
                assert(self@.indices[a].key_cols == s0.indices[a].key_cols);
                assert(self@.indices[b].key_cols == s0.indices[b].key_cols);
            }
        }
        hit
    }

    /// Register an index for `columns` (see `store_add_key`).  Re-registering
    /// an existing column set only merges in new replay tags.  A new fully
    /// materialized index is eagerly backfilled from the first index's
    /// current contents, which must then itself be fully materialized and
    /// hold only rows that reach the new columns.
    pub fn add_key(&mut self, columns: &Vec<usize>, partial: Option<Vec<Tag>>)
        requires
            old(self).inv(),
            (find_index(old(self)@.indices, columns@) == -1 && (partial matches Option::None)
                && old(self)@.indices.len() > 0) ==> (!old(self)@.indices[0].partial
                && index_rows_cover(old(self)@.indices[0], columns@)),
        ensures
            final(self).inv(),
            final(self)@ == store_add_key(
                old(self)@,
                columns@,
                match partial {
                    Option::Some(v) => Option::Some(v@),
                    Option::None => Option::<Seq<Tag>>::None,
                },
            ),
    {
        let ghost s0 = self@;
        let ghost tags_view = match partial {
            Option::Some(ref v) => Option::Some(v@),
            Option::None => Option::<Seq<Tag>>::None,
        };
        let existing = self.state_for(columns);
        let i_target = match existing {
            Option::Some(i) => i,
            Option::None => self.state.len(),
        };
        proof {
            lemma_find_index_spec(s0.indices, columns@);
        }
        match &partial {
            Option::Some(p) => {
                let mut ti: usize = 0;
                while ti < p.len()
                    invariant
                        0 <= ti <= p.len(),
                        self.state@ == old(self).state@,
                        self.mem_size == old(self).mem_size,
                        tag_map(self.by_tag@) == tags_fold(
                            s0.tags,
                            p@.take(ti as int),
                            i_target as int,
                        ),
                    decreases p.len() - ti,
                {
                    let ghost bt_pre = self.by_tag@;
                    let t = p[ti];
                    self.by_tag.push((t, i_target));
                    proof {
                        assert(self.by_tag@.drop_last() =~= bt_pre);
                        assert(tag_map(self.by_tag@) == tag_map(bt_pre).insert(
                            t,
                            i_target as int,
                        ));
                        assert(p@.take(ti as int + 1).drop_last() =~= p@.take(ti as int));
                        assert(p@.take(ti as int + 1).last() == p@[ti as int]);
                    }
                    ti = ti + 1;
                }
                proof {
                    assert(p@.take(p@.len() as int) =~= p@);
                }
            },
            Option::None => {},
        }
        let ghost tags2 = tag_map(self.by_tag@);
        if let Option::Some(_) = existing {
            proof {
                let target = store_add_key(s0, columns@, tags_view);
                assert(self@.indices == s0.indices);
                assert(self@ == target);
                match tags_view {
                    Option::Some(ts2) => {
                        lemma_tags_fold_range(
                            s0.tags,
                            ts2,
                            i_target as int,
                            s0.indices.len() as int,
                        );
                    },
                    Option::None => {},
                }
            }
            return ;
        }
        let is_partial_ix = match &partial {
            Option::Some(_) => true,
            Option::None => false,
        };
        let mut new_ix = SingleState::new(columns, is_partial_ix);
        proof {
            assert(new_ix@.entries =~= Seq::<EntryModel>::empty());
            assert(new_ix@ == empty_index(columns@, is_partial_ix));
        }
        if !is_partial_ix && self.state.len() > 0 {
            proof {
                assert(s0.indices[0] == self.state@[0]@);
            }
            let src = &self.state[0];
            let ghost es = src@.entries;
            let ghost base = empty_index(columns@, false);
            proof {
                assert(es.take(0) =~= Seq::<EntryModel>::empty());
            }
            let mut ei: usize = 0;
            while ei < src.entries.len()
                invariant
                    0 <= ei <= src.entries.len(),
                    es == src@.entries,
                    src@ == s0.indices[0],
                    index_rows_cover(s0.indices[0], columns@),
                    base == empty_index(columns@, false),
                    new_ix@ == backfill_entries(base, es.take(ei as int)),
                    new_ix@.key_cols == columns@,
                    new_ix@.partial == false,
                    index_wf(new_ix@),
                decreases src.entries.len() - ei,
            {
                let entry = &src.entries[ei];
                proof {
                    assert(es[ei as int] == src.entries@[ei as int]@);
                }
                let ghost vs = entry@.versions;
                proof {
                    assert(vs.take(0) =~= Seq::<VersionModel>::empty());
                }
                let mut vi: usize = 0;
                while vi < entry.versions.len()
                    invariant
                        0 <= vi <= entry.versions.len(),
                        es == src@.entries,
                        0 <= (ei as int) < es.len(),
                        entry@ == es[ei as int],
                        vs == entry@.versions,
                        index_rows_cover(s0.indices[0], columns@),
                        src@ == s0.indices[0],
                        base == empty_index(columns@, false),
                        new_ix@ == backfill_versions(
                            backfill_entries(base, es.take(ei as int)),
                            vs.take(vi as int),
                        ),
                        new_ix@.key_cols == columns@,
                        new_ix@.partial == false,
                        index_wf(new_ix@),
                    decreases entry.versions.len() - vi,
                {
                    proof {
                        assert(vs[vi as int] == entry.versions@[vi as int]@);
                        assert(covers(vs[vi as int].row, columns@));
                    }
                    let row2 = clone_row(&entry.versions[vi].row);
                    let t2 = entry.versions[vi].ts;
                    let _ = new_ix.insert_row(row2, t2);
                    proof {
                        assert(vs.take(vi as int + 1).drop_last() =~= vs.take(vi as int));
                        assert(vs.take(vi as int + 1).last() == vs[vi as int]);
                    }
                    vi = vi + 1;
                }
                proof {
                    assert(vs.take(vs.len() as int) =~= vs);
                    assert(es.take(ei as int + 1).drop_last() =~= es.take(ei as int));
                    assert(es.take(ei as int + 1).last() == es[ei as int]);
                }
                ei = ei + 1;
            }
            proof {
                assert(es.take(es.len() as int) =~= es);
            }
        }
        let ghost st_pre = self.state@;
        let ghost new_ixg = new_ix;
        self.state.push(new_ix);
        proof {
            let target = store_add_key(s0, columns@, tags_view);
            assert(self.state@ == st_pre.push(new_ixg));
            assert forall|j: int| 0 <= j < self@.indices.len() implies (
            #[trigger] self@.indices[j]) == (if j < st_pre.len() {
                s0.indices[j]
            } else {
                new_ixg@
            }) by {
                assert(self@.indices[j] == self.state@[j]@);
                if j < st_pre.len() {
                    assert(self.state@[j] == st_pre[j]);
                    assert(st_pre[j]@ == s0.indices[j]);
                }
            }
            assert(self@.indices =~= target.indices);
            assert(self@ == target);
            match tags_view {
                Option::Some(ts2) => {
                    lemma_tags_fold_range(
                        s0.tags,
                        ts2,
                        i_target as int,
                        self@.indices.len() as int,
                    );
                },
                Option::None => {},
            }
            assert forall|t: Tag| self@.tags.dom().contains(t) implies 0 <= #[trigger] self@.tags[t]
                < self@.indices.len() by {
                match tags_view {
                    Option::None => {
                        assert(self@.tags == s0.tags);
                    },
                    Option::Some(_) => {},
                }
            }
            assert forall|j: int| 0 <= j < self@.indices.len() implies index_wf(
                #[trigger] self@.indices[j],
            ) by {
                if j < st_pre.len() {
                    assert(self@.indices[j] == s0.indices[j]);
                }
            }
            assert forall|a: int, b: int|
                #![trigger self@.indices[a], self@.indices[b]]
                0 <= a < b < self@.indices.len() implies self@.indices[a].key_cols
                != self@.indices[b].key_cols by {
                if b < st_pre.len() {
                    assert(self@.indices[a].key_cols == s0.indices[a].key_cols);
                    assert(self@.indices[b].key_cols == s0.indices[b].key_cols);
                } else {
                    assert(self@.indices[a].key_cols == s0.indices[a].key_cols);
                    assert(self@.indices[b].key_cols == columns@);
                    assert(s0.indices[a].key_cols != columns@);
                }
            }
        }
    }

    /// Mark `key` as filled in the index owned by `tag` (see
    /// `store_mark_filled`).  A tag that was never registered is a
    /// legitimate silent no-op: the tag may be in flight before its owning
    /// index is finalized.
    pub fn mark_filled(&mut self, key: Vec<DataType>, tag: Tag)
        requires
            old(self).inv(),
            old(self)@.indices.len() > 0,
            old(self)@.tags.dom().contains(tag) ==> old(self)@.indices[old(self)@.tags[tag]].partial
                && find_entry(
                old(self)@.indices[old(self)@.tags[tag]].entries,
                key.deep_view(),
            ) == -1 && key.deep_view().len()
                == old(self)@.indices[old(self)@.tags[tag]].key_cols.len(),
        ensures
            final(self).inv(),
            !old(self)@.tags.dom().contains(tag) ==> final(self)@ == old(self)@,
            old(self)@.tags.dom().contains(tag) ==> final(self)@ == store_mark_filled(
                old(self)@,
                key.deep_view(),
                tag,
            ),
    {
        let ghost s0 = self@;
        let ghost kd = key.deep_view();
        match self.tag_index(tag) {
            Option::None => {},
            Option::Some(i) => {
                proof {
                    assert(0 <= (i as int) < s0.indices.len());
                    assert(s0.indices[i as int] == self.state@[i as int]@);
                }
                let ghost st_pre = self.state@;
                let mut ix = self.state.remove(i);
                ix.mark_filled(key);
                let ghost ixg = ix;
                self.state.insert(i, ix);
                proof {
                    let target = store_mark_filled(s0, kd, tag);
                    lemma_replace_at(st_pre, i as int, ixg);
                    assert(self.state@ == st_pre.remove(i as int).insert(i as int, ixg));
                    assert forall|j: int| 0 <= j < self@.indices.len() implies (
                    #[trigger] self@.indices[j]) == (if j == i as int {
                        ixg@
                    } else {
                        s0.indices[j]
                    }) by {
                        assert(self@.indices[j] == self.state@[j]@);
                        if j != i as int {
                            assert(self.state@[j] == st_pre[j]);
                            assert(st_pre[j]@ == s0.indices[j]);
                        }
                    }
                    assert(self@.indices =~= target.indices);
                    assert(self@ == target);
                    assert forall|a: int, b: int|
                        #![trigger self@.indices[a], self@.indices[b]]
                        0 <= a < b < self@.indices.len() implies self@.indices[a].key_cols
                        != self@.indices[b].key_cols by {
                        assert(self@.indices[a].key_cols == s0.indices[a].key_cols);
                        assert(self@.indices[b].key_cols == s0.indices[b].key_cols);
                    }
                    assert forall|j: int| 0 <= j < self@.indices.len() implies index_wf(
                        #[trigger] self@.indices[j],
                    ) by {
                        if j != i as int {
                            assert(self@.indices[j] == s0.indices[j]);
                        }
                    }
                }
            },
        }
    }

    /// Mark `key` as a hole again in the index owned by `tag`, decrementing
    /// the memory estimate by exactly the bytes the entry held (see
    /// `store_mark_hole`).  A tag that was never registered is a legitimate
    /// silent no-op and frees nothing.
    pub fn mark_hole(&mut self, key: &Vec<DataType>, tag: Tag)
        requires
            old(self).inv(),
            old(self)@.indices.len() > 0,
            old(self)@.tags.dom().contains(tag) ==> old(self)@.indices[old(self)@.tags[tag]].partial
                && hole_bytes(old(self)@, key.deep_view(), tag) <= old(self)@.mem,
        ensures
            final(self).inv(),
            !old(self)@.tags.dom().contains(tag) ==> final(self)@ == old(self)@,
            old(self)@.tags.dom().contains(tag) ==> final(self)@ == store_mark_hole(
                old(self)@,
                key.deep_view(),
                tag,
            ),
    {
        let ghost s0 = self@;
        let ghost kd = key.deep_view();
        match self.tag_index(tag) {
            Option::None => {},
            Option::Some(i) => {
                proof {
                    assert(0 <= (i as int) < s0.indices.len());
                    assert(s0.indices[i as int] == self.state@[i as int]@);
                }
                let ghost st_pre = self.state@;
                let mut ix = self.state.remove(i);
                let freed = ix.take_key(key);
                let ghost ixg = ix;
                self.state.insert(i, ix);
                proof {
                    assert(freed == hole_bytes(s0, kd, tag));
                }
                self.mem_size = self.mem_size - freed;
                proof {
                    let target = store_mark_hole(s0, kd, tag);
                    lemma_replace_at(st_pre, i as int, ixg);
                    assert(self.state@ == st_pre.remove(i as int).insert(i as int, ixg));
                    assert forall|j: int| 0 <= j < self@.indices.len() implies (
                    #[trigger] self@.indices[j]) == (if j == i as int {
                        ixg@
                    } else {
                        s0.indices[j]
                    }) by {
                        assert(self@.indices[j] == self.state@[j]@);
                        if j != i as int {
                            assert(self.state@[j] == st_pre[j]);
                            assert(st_pre[j]@ == s0.indices[j]);
                        }
                    }
                    assert(self@.indices =~= target.indices);
                    assert(self@ == target);
                    assert forall|a: int, b: int|
                        #![trigger self@.indices[a], self@.indices[b]]
                        0 <= a < b < self@.indices.len() implies self@.indices[a].key_cols
                        != self@.indices[b].key_cols by {
                        assert(self@.indices[a].key_cols == s0.indices[a].key_cols);
                        assert(self@.indices[b].key_cols == s0.indices[b].key_cols);
                    }
                    assert forall|j: int| 0 <= j < self@.indices.len() implies index_wf(
                        #[trigger] self@.indices[j],
                    ) by {
                        if j != i as int {
                            assert(self@.indices[j] == s0.indices[j]);
                        }
                    }
                }
            },
        }
    }

    /// Point lookup on the index keyed on `columns`, visible as of `ts`.
    pub fn lookup_at(&self, columns: &Vec<usize>, key: &Vec<DataType>, ts: Option<Timestamp>) -> (r:
        LookupResult)
        requires
            self.inv(),
            find_index(self@.indices, columns@) >= 0,
        ensures
            ({
                let ix = self@.indices[find_index(self@.indices, columns@)];
                let e = find_entry(ix.entries, key.deep_view());
                if ix.partial && e < 0 {
                    r matches LookupResult::Missing
                } else {
                    (r matches LookupResult::Found(rows) && rows.deep_view() == lookup_rows(
                        ix,
                        key.deep_view(),
                        ts,
                    ))
                }
            }),
    {
        match self.state_for(columns) {
            Option::Some(i) => {
                proof {
                    assert(self@.indices[i as int] == self.state@[i as int]@);
                }
                self.state[i].lookup(key, ts)
            },
            Option::None => {
                proof {
                    assert(false);
                }
                LookupResult::Missing
            },
        }
    }

    /// Point lookup on the index keyed on `columns`.
    pub fn lookup(&self, columns: &Vec<usize>, key: &Vec<DataType>) -> (r: LookupResult)
        requires
            self.inv(),
            find_index(self@.indices, columns@) >= 0,
        ensures
            ({
                let ix = self@.indices[find_index(self@.indices, columns@)];
                let e = find_entry(ix.entries, key.deep_view());
                if ix.partial && e < 0 {
                    r matches LookupResult::Missing
                } else {
                    (r matches LookupResult::Found(rows) && rows.deep_view() == lookup_rows(
                        ix,
                        key.deep_view(),
                        Option::None,
                    ))
                }
            }),
    {
        self.lookup_at(columns, key, Option::None)
    }

    /// The key-column sets of every index, in creation order.
    pub fn keys(&self) -> (r: Vec<Vec<usize>>)
        ensures
            r@.len() == self@.indices.len(),
            forall|i: int| 0 <= i < r@.len() ==> (#[trigger] r@[i])@ == self@.indices[i].key_cols,
    {
        let mut r: Vec<Vec<usize>> = Vec::new();
        let mut i: usize = 0;
        while i < self.state.len()
            invariant
                0 <= i <= self.state.len(),
                r@.len() == i,
                forall|j: int| 0 <= j < i ==> (#[trigger] r@[j])@ == self@.indices[j].key_cols,
            decreases self.state.len() - i,
        {
            let kc = copy_cols(self.state[i].key());
            proof {
                assert(self@.indices[i as int] == self.state@[i as int]@);
            }
            r.push(kc);
            i = i + 1;
        }
        r
    }

    /// Number of stored row versions over the whole store.
    pub fn rows(&self) -> (n: usize)
        ensures
            n == sat_usize(store_rows(self@)),
    {
        let ghost ixs = self@.indices;
        let mut acc: usize = 0;
        let mut i: usize = 0;
        while i < self.state.len()
            invariant
                0 <= i <= self.state.len(),
                ixs == self@.indices,
                acc == sat_usize(indices_rows(ixs.take(i as int))),
            decreases self.state.len() - i,
        {
            let c = self.state[i].rows();
            proof {
                assert(self@.indices[i as int] == self.state@[i as int]@);
                assert(ixs.take(i as int + 1).drop_last() =~= ixs.take(i as int));
                assert(ixs.take(i as int + 1).last() == ixs[i as int]);
            }
            acc = acc.saturating_add(c);
            i = i + 1;
        }
        proof {
            assert(ixs.take(ixs.len() as int) =~= ixs);
        }
        acc
    }

    /// Clear every index's contents and reset the memory estimate; index
    /// registrations and tag mappings survive.
    pub fn clear(&mut self)
        requires
            old(self).inv(),
        ensures
            final(self).inv(),
            final(self)@.tags == old(self)@.tags,
            final(self)@.mem == 0,
            final(self)@.indices.len() == old(self)@.indices.len(),
            forall|i: int|
                0 <= i < old(self)@.indices.len() ==> (#[trigger] final(self)@.indices[i])
                    == empty_index(
                    old(self)@.indices[i].key_cols,
                    old(self)@.indices[i].partial,
                ),
    {
        let ghost s0 = self@;
        let mut i: usize = 0;
        while i < self.state.len()
            invariant
                0 <= i <= self.state.len(),
                self.state.len() == s0.indices.len(),
                self.by_tag@ == old(self).by_tag@,
                forall|j: int|
                    0 <= j < i ==> (#[trigger] self@.indices[j]) == empty_index(
                        s0.indices[j].key_cols,
                        s0.indices[j].partial,
                    ),
                forall|j: int|
                    i <= j < self.state.len() ==> (#[trigger] self@.indices[j]) == s0.indices[j],
                forall|j: int| 0 <= j < self.state.len() ==> index_wf(#[trigger] self@.indices[j]),
            decreases self.state.len() - i,
        {
            let ghost st_pre = self.state@;
            let ghost dv_pre = self@.indices;
            let mut ix = self.state.remove(i);
            ix.clear();
            let ghost ixg = ix;
            self.state.insert(i, ix);
            proof {
                lemma_replace_at(st_pre, i as int, ixg);
                assert(self.state@ == st_pre.remove(i as int).insert(i as int, ixg));
                assert forall|j: int| 0 <= j < self.state@.len() implies (
                #[trigger] self@.indices[j]) == (if j == i as int {
                    ixg@
                } else {
                    dv_pre[j]
                }) by {
                    assert(self@.indices[j] == self.state@[j]@);
                    if j != i as int {
                        assert(self.state@[j] == st_pre[j]);
                        assert(st_pre[j]@ == dv_pre[j]);
                    }
                }
                assert(st_pre[i as int]@ == dv_pre[i as int]);
                assert(dv_pre[i as int] == s0.indices[i as int]);
                assert(ixg@ == empty_index(
                    s0.indices[i as int].key_cols,
                    s0.indices[i as int].partial,
                ));
            }
            i = i + 1;
        }
        let ghost dvf = self@.indices;
        proof {
            assert forall|a: int, b: int|
                #![trigger dvf[a], dvf[b]]
                0 <= a < b < dvf.len() implies dvf[a].key_cols != dvf[b].key_cols by {
                assert(dvf[a].key_cols == s0.indices[a].key_cols);
                assert(dvf[b].key_cols == s0.indices[b].key_cols);
            }
            assert(forall|j: int| 0 <= j < dvf.len() ==> index_wf(#[trigger] dvf[j]));
            assert(forall|j: int|
                0 <= j < dvf.len() ==> (#[trigger] dvf[j]) == empty_index(
                    s0.indices[j].key_cols,
                    s0.indices[j].partial,
                ));
            assert(self@.tags == s0.tags);
        }
        self.mem_size = 0;
        proof {
            assert(self@.indices == dvf);
            assert(self@.tags == s0.tags);
        }
    }

    /// Every row's value sequence from the first index, which must be fully
    /// materialized: a full, unindexed dump of the view.
    pub fn cloned_records(&self) -> (r: Vec<Vec<DataType>>)
        requires
            self.inv(),
            self@.indices.len() > 0,
            !self@.indices[0].partial,
        ensures
            r.deep_view() == all_rows(self@.indices[0].entries),
    {
        proof {
            assert(self@.indices[0] == self.state@[0]@);
        }
        let src = &self.state[0];
        let ghost es = src@.entries;
        let mut r: Vec<Vec<DataType>> = Vec::new();
        let mut ei: usize = 0;
        while ei < src.entries.len()
            invariant
                0 <= ei <= src.entries.len(),
                es == src@.entries,
                r.deep_view() == all_rows(es.take(ei as int)),
            decreases src.entries.len() - ei,
        {
            let entry = &src.entries[ei];
            proof {
                assert(es[ei as int] == src.entries@[ei as int]@);
            }
            let ghost vs = entry@.versions;
            let mut vi: usize = 0;
            while vi < entry.versions.len()
                invariant
                    0 <= vi <= entry.versions.len(),
                    es == src@.entries,
                    0 <= (ei as int) < es.len(),
                    entry@ == es[ei as int],
                    vs == entry@.versions,
                    r.deep_view() == all_rows(es.take(ei as int)) + visible_rows(
                        vs.take(vi as int),
                        Option::None,
                    ),
                decreases entry.versions.len() - vi,
            {
                let ghost dv0 = r.deep_view();
                r.push(clone_row(&entry.versions[vi].row));
                proof {
                    assert(vs.take(vi as int + 1).drop_last() =~= vs.take(vi as int));
                    assert(vs.take(vi as int + 1).last() == vs[vi as int]);
                    assert(vs[vi as int] == entry.versions@[vi as int]@);
                    assert(r.deep_view() =~= dv0.push(vs[vi as int].row));
                    assert(r.deep_view() =~= all_rows(es.take(ei as int)) + visible_rows(
                        vs.take(vi as int + 1),
                        Option::None,
                    ));
                }
                vi = vi + 1;
            }
            proof {
                assert(vs.take(vs.len() as int) =~= vs);
                assert(es.take(ei as int + 1).drop_last() =~= es.take(ei as int));
                assert(es.take(ei as int + 1).last() == es[ei as int]);
            }
            ei = ei + 1;
        }
        proof {
            assert(es.take(es.len() as int) =~= es);
        }
        r
    }

    /// The main mutation entry point: apply a batch of records in order.  In
    /// a partial store only absorbed records are retained in the batch for
    /// downstream propagation; in a fully materialized store every record
    /// must be absorbed and the batch passes through whole (see
    /// `process_model`).
    pub fn process_records(
        &mut self,
        records: &mut Vec<Record>,
        ts: Timestamp,
        partial_tag: Option<Tag>,
    )
        requires
            old(self).inv(),
            batch_ok(
                old(self)@,
                old(records).deep_view(),
                if store_is_partial(old(self)@) {
                    partial_tag
                } else {
                    Option::<Tag>::None
                },
            ),
            !store_is_partial(old(self)@) ==> all_hit(
                old(self)@,
                old(records).deep_view(),
                Option::<Tag>::None,
                ts,
            ),
        ensures
            final(self).inv(),
            ({
                let tag_eff = if store_is_partial(old(self)@) {
                    partial_tag
                } else {
                    Option::<Tag>::None
                };
                final(self)@ == process_model(old(self)@, old(records).deep_view(), tag_eff, ts).0
                    && final(records).deep_view() == process_model(
                    old(self)@,
                    old(records).deep_view(),
                    tag_eff,
                    ts,
                ).1
            }),
    {
        let ghost s0 = self@;
        let ghost recs0 = records.deep_view();
        let ghost n = recs0.len() as int;
        let is_p = self.is_partial();
        let tag_eff = if is_p {
            partial_tag
        } else {
            Option::None
        };
        let mut out: Vec<Record> = Vec::new();
        let ghost mut i: int = 0;
        while records.len() > 0
            invariant
                0 <= i <= n,
                n == recs0.len(),
                store_wf(s0),
                batch_ok(s0, recs0, tag_eff),
                !store_is_partial(s0) ==> all_hit(s0, recs0, tag_eff, ts),
                records.deep_view() == recs0.skip(i),
                self.inv(),
                same_shape(s0, self@),
                self@ == process_model(s0, recs0.take(i), tag_eff, ts).0,
                out.deep_view() == process_model(s0, recs0.take(i), tag_eff, ts).1,
            decreases records.len(),
        {
            let ghost rem_pre = records.deep_view();
            let ghost s_pre = self@;
            let rec = records.remove(0);
            proof {
                assert(rec@ == rem_pre[0]);
                assert(rem_pre.len() > 0);
                assert(rem_pre == recs0.skip(i));
                assert(recs0.skip(i).len() == n - i);
                assert(recs0.skip(i)[0] == recs0[0 + i]);
                assert(rem_pre[0] == recs0[i]);
                assert(records.deep_view() =~= recs0.skip(i + 1)) by {
                    assert(records.deep_view() =~= rem_pre.skip(1));
                    assert(rem_pre =~= recs0.skip(i));
                }
                assert(record_ok(s0, recs0[i], tag_eff));
                lemma_record_ok_shape(s0, s_pre, recs0[i], tag_eff);
            }
            let keep = if rec.is_positive() {
                let row2 = clone_row(rec.row());
                self.insert(row2, tag_eff, ts)
            } else {
                self.remove(rec.row(), ts)
            };
            proof {
                assert(recs0.take(i + 1).drop_last() =~= recs0.take(i));
                assert(recs0.take(i + 1).last() == recs0[i]);
                assert((self@, keep) == apply_record(s_pre, recs0[i], tag_eff, ts));
                lemma_apply_shape(s_pre, recs0[i], tag_eff, ts);
                if !store_is_partial(s0) {
                    lemma_all_hit_take(s0, recs0, tag_eff, ts, i + 1);
                    assert(keep);
                }
            }
            let ghost out_pre = out.deep_view();
            if keep {
                out.push(rec);
                proof {
                    assert(out.deep_view() =~= out_pre.push(recs0[i]));
                }
            }
            proof {
                i = i + 1;
            }
        }
        proof {
            assert(recs0.skip(i).len() == 0);
            assert(i == n);
            assert(recs0.take(n) =~= recs0);
        }
        *records = out;
    }

    /// Evict exactly the given keys from the index owned by `tag`; an unknown
    /// tag is a legitimate no-op.  Returns the index's key-column set and the
    /// bytes freed (estimate decremented saturating).
    pub fn evict_keys(&mut self, tag: Tag, keys: &Vec<Vec<DataType>>) -> (r: Option<(Vec<usize>, u64)>)
        requires
            old(self).inv(),
        ensures
            final(self).inv(),
            !old(self)@.tags.dom().contains(tag) ==> (r matches Option::None && final(self)@
                == old(self)@),
            old(self)@.tags.dom().contains(tag) ==> ({
                let i = old(self)@.tags[tag];
                let ix = old(self)@.indices[i];
                (r matches Option::Some(p) && p.0@ == ix.key_cols && p.1 == sat64(
                    evict_list(ix.entries, keys.deep_view()).1,
                ) && final(self)@ == (StoreModel {
                    indices: old(self)@.indices.update(
                        i,
                        IndexModel {
                            key_cols: ix.key_cols,
                            partial: ix.partial,
                            entries: evict_list(ix.entries, keys.deep_view()).0,
                        },
                    ),
                    tags: old(self)@.tags,
                    mem: sub_sat(old(self)@.mem, sat64(evict_list(ix.entries, keys.deep_view()).1)),
                }))
            }),
    {
        let ghost s0 = self@;
        let ghost kd = keys.deep_view();
        match self.tag_index(tag) {
            Option::None => Option::None,
            Option::Some(i) => {
                proof {
                    assert(0 <= (i as int) < s0.indices.len());
                    assert(s0.indices[i as int] == self.state@[i as int]@);
                }
                let ghost st_pre = self.state@;
                let mut ix = self.state.remove(i);
                let ghost e0 = ix@.entries;
                let kc = copy_cols(ix.key());
                let mut freed: u64 = 0;
                let mut j: usize = 0;
                while j < keys.len()
                    invariant
                        0 <= j <= keys.len(),
                        kd == keys.deep_view(),
                        e0 == s0.indices[i as int].entries,
                        ix@.key_cols == s0.indices[i as int].key_cols,
                        ix@.partial == s0.indices[i as int].partial,
                        index_wf(ix@),
                        ix@.entries == evict_list(e0, kd.take(j as int)).0,
                        freed == sat64(evict_list(e0, kd.take(j as int)).1),
                    decreases keys.len() - j,
                {
                    let f = ix.take_key(&keys[j]);
                    proof {
                        assert(kd.take(j as int + 1).drop_last() =~= kd.take(j as int));
                        assert(kd.take(j as int + 1).last() == kd[j as int]);
                        assert(kd[j as int] == keys@[j as int].deep_view());
                    }
                    freed = freed.saturating_add(f);
                    j = j + 1;
                }
                proof {
                    assert(kd.take(kd.len() as int) =~= kd);
                }
                let ghost ixg = ix;
                self.state.insert(i, ix);
                self.mem_size = self.mem_size.saturating_sub(freed);
                proof {
                    lemma_replace_at(st_pre, i as int, ixg);
                    assert(self.state@ == st_pre.remove(i as int).insert(i as int, ixg));
                    assert forall|j2: int| 0 <= j2 < self@.indices.len() implies (
                    #[trigger] self@.indices[j2]) == (if j2 == i as int {
                        ixg@
                    } else {
                        s0.indices[j2]
                    }) by {
                        assert(self@.indices[j2] == self.state@[j2]@);
                        if j2 != i as int {
                            assert(self.state@[j2] == st_pre[j2]);
                            assert(st_pre[j2]@ == s0.indices[j2]);
                        }
                    }
                    let ix_t = IndexModel {
                        key_cols: s0.indices[i as int].key_cols,
                        partial: s0.indices[i as int].partial,
                        entries: evict_list(e0, kd).0,
                    };
                    assert(ixg@ == ix_t);
                    assert(self@.indices =~= s0.indices.update(i as int, ix_t));
                    assert forall|a: int, b: int|
                        #![trigger self@.indices[a], self@.indices[b]]
                        0 <= a < b < self@.indices.len() implies self@.indices[a].key_cols
                        != self@.indices[b].key_cols by {
                        assert(self@.indices[a].key_cols == s0.indices[a].key_cols);
                        assert(self@.indices[b].key_cols == s0.indices[b].key_cols);
                    }
                    assert forall|j2: int| 0 <= j2 < self@.indices.len() implies index_wf(
                        #[trigger] self@.indices[j2],
                    ) by {
                        if j2 != i as int {
                            assert(self@.indices[j2] == s0.indices[j2]);
                        }
                    }
                }
                Option::Some((kc, freed))
            },
        }
    }

    /// Pick one index at random, evict up to `count` of its keys by its
    /// randomized policy, decrement the estimate (saturating), and return the
    /// evicted index's key-column set, the evicted keys and the bytes freed.
    pub fn evict_random_keys(&mut self, count: usize) -> (r: (Vec<usize>, Vec<Vec<DataType>>, u64))
        requires
            old(self).inv(),
            old(self)@.indices.len() > 0,
        ensures
            final(self).inv(),
            final(self)@.tags == old(self)@.tags,
            final(self)@.mem == sub_sat(old(self)@.mem, r.2),
            exists|i: int|
                0 <= i < old(self)@.indices.len() && evicted_at(
                    old(self)@,
                    final(self)@,
                    i,
                    r.0@,
                    r.1.deep_view(),
                    count as int,
                    r.2,
                ),
    {
        let ghost s0 = self@;
        let idx = crate::rng::random_below(self.state.len());
        proof {
            assert(s0.indices[idx as int] == self.state@[idx as int]@);
        }
        let ghost st_pre = self.state@;
        let mut ix = self.state.remove(idx);
        let out = ix.evict_random_keys(count);
        let kc = copy_cols(ix.key());
        let ghost ixg = ix;
        self.state.insert(idx, ix);
        let ghost dvf = self@.indices;
        proof {
            lemma_replace_at(st_pre, idx as int, ixg);
            assert(self.state@ == st_pre.remove(idx as int).insert(idx as int, ixg));
            assert forall|j: int| 0 <= j < dvf.len() implies (#[trigger] dvf[j]) == (if j
                == idx as int {
                ixg@
            } else {
                s0.indices[j]
            }) by {
                assert(dvf[j] == self.state@[j]@);
                if j != idx as int {
                    assert(self.state@[j] == st_pre[j]);
                    assert(st_pre[j]@ == s0.indices[j]);
                }
            }
            assert(dvf.len() == s0.indices.len());
            assert(st_pre[idx as int]@ == s0.indices[idx as int]);
            assert forall|a: int, b: int|
                #![trigger dvf[a], dvf[b]]
                0 <= a < b < dvf.len() implies dvf[a].key_cols != dvf[b].key_cols by {
                assert(dvf[a].key_cols == s0.indices[a].key_cols);
                assert(dvf[b].key_cols == s0.indices[b].key_cols);
            }
            assert(forall|j: int| 0 <= j < dvf.len() ==> index_wf(#[trigger] dvf[j]));
        }
        self.mem_size = self.mem_size.saturating_sub(out.0);
        let result = (kc, out.1, out.0);
        proof {
            assert(self@.indices == dvf);
            assert(self@.tags == s0.tags);
            assert(self@.mem == sub_sat(s0.mem, result.2));
            assert(evicted_at(
                s0,
                self@,
                idx as int,
                result.0@,
                result.1.deep_view(),
                count as int,
                result.2,
            ));
        }
        result
    }
}

} // verus!
