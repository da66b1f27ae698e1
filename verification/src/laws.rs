//! The store's general laws, proved over the spec-level model: index
//! agreement under fully materialized operation, tagged-insert visibility,
//! partial-store filtering, removal correctness, and exact memory accounting
//! for the tagged insert / hole-marking paths.

use vstd::prelude::*;

use crate::data::{covers, project, row_size, sat64, DataValue, Tag, Timestamp, VERSIONED_ROW_HEADER_SIZE};
use crate::single_state::{
    entries_bytes, entry_bytes, find_entry, find_version, index_insert, index_remove, index_wf,
    lookup_rows, version_bytes, versions_bytes, visible_rows, EntryModel, IndexModel, VersionModel,
    lemma_entries_bytes_remove, lemma_find_entry_spec, lemma_find_entry_at, lemma_find_version_spec,
    lemma_find_version_at,
};
use crate::memory_state::{
    add_sat, backfill_entries, backfill_versions, empty_index, fan_insert, fan_remove, find_index,
    hole_bytes, insert_charge, lemma_fan_insert, lemma_fan_remove, store_add_key, store_insert,
    store_is_partial, store_mark_filled, store_mark_hole, store_remove, store_wf, StoreModel,
};

verus! {

/// Whether some stored version of the index holds exactly `row`.
pub open spec fn index_has_row(ix: IndexModel, row: Seq<DataValue>) -> bool {
    exists|e: int, v: int|
        0 <= e < ix.entries.len() && 0 <= v < ix.entries[e].versions.len() && (
        #[trigger] ix.entries[e].versions[v]).row == row
}

/// Whether every pair of indices stores exactly the same rows.
pub open spec fn indices_agree(s: StoreModel) -> bool {
    forall|i: int, j: int, row: Seq<DataValue>|
        #![trigger index_has_row(s.indices[i], row), index_has_row(s.indices[j], row)]
        0 <= i < s.indices.len() && 0 <= j < s.indices.len() ==> (index_has_row(
            s.indices[i],
            row,
        ) <==> index_has_row(s.indices[j], row))
}

/// With no timestamp bound, a lookup sees every stored version, in order.
pub proof fn lemma_visible_rows_all(vs: Seq<VersionModel>)
    ensures
        visible_rows(vs, Option::None).len() == vs.len(),
        forall|v: int|
            0 <= v < vs.len() ==> visible_rows(vs, Option::None)[v] == (#[trigger] vs[v]).row,
    decreases vs.len(),
{
    if vs.len() == 0 {
    } else {
        lemma_visible_rows_all(vs.drop_last());
        assert forall|v: int| 0 <= v < vs.len() - 1 implies vs.drop_last()[v] == vs[v] by {}
    }
}

/// An accepted insert stores exactly one more version of `row`: afterwards
/// the index holds a row's values iff it held them before or they are `row`.
pub proof fn lemma_index_insert_has_row(
    ix: IndexModel,
    row: Seq<DataValue>,
    ts: Timestamp,
    r2: Seq<DataValue>,
)
    requires
        index_insert(ix, row, ts).1,
    ensures
        index_has_row(index_insert(ix, row, ts).0, r2) <==> (index_has_row(ix, r2) || r2 == row),
{
    let k = project(row, ix.key_cols);
    let e = find_entry(ix.entries, k);
    lemma_find_entry_spec(ix.entries, k);
    let ix2 = index_insert(ix, row, ts).0;
    if e >= 0 {
        let vs = ix.entries[e].versions;
        if index_has_row(ix2, r2) {
            let (e2, v2) = choose|e2: int, v2: int|
                0 <= e2 < ix2.entries.len() && 0 <= v2 < ix2.entries[e2].versions.len() && (
                #[trigger] ix2.entries[e2].versions[v2]).row == r2;
            if e2 == e {
                if v2 < vs.len() {
                    assert(ix.entries[e].versions[v2].row == r2);
                } else {
                    assert(r2 == row);
                }
            } else {
                assert(ix.entries[e2].versions[v2].row == r2);
            }
        }
        if index_has_row(ix, r2) {
            let (e2, v2) = choose|e2: int, v2: int|
                0 <= e2 < ix.entries.len() && 0 <= v2 < ix.entries[e2].versions.len() && (
                #[trigger] ix.entries[e2].versions[v2]).row == r2;
            if e2 == e {
                assert(ix2.entries[e].versions[v2].row == r2);
            } else {
                assert(ix2.entries[e2].versions[v2].row == r2);
            }
        }
        assert(ix2.entries[e].versions[vs.len() as int].row == row);
    } else {
        assert(!ix.partial);
        let n = ix.entries.len() as int;
        if index_has_row(ix2, r2) {
            let (e2, v2) = choose|e2: int, v2: int|
                0 <= e2 < ix2.entries.len() && 0 <= v2 < ix2.entries[e2].versions.len() && (
                #[trigger] ix2.entries[e2].versions[v2]).row == r2;
            if e2 == n {
                assert(r2 == row);
            } else {
                assert(ix.entries[e2].versions[v2].row == r2);
            }
        }
        if index_has_row(ix, r2) {
            let (e2, v2) = choose|e2: int, v2: int|
                0 <= e2 < ix.entries.len() && 0 <= v2 < ix.entries[e2].versions.len() && (
                #[trigger] ix.entries[e2].versions[v2]).row == r2;
            assert(ix2.entries[e2].versions[v2].row == r2);
        }
        assert(ix2.entries[n].versions[0].row == row);
    }
}

/// A fully materialized index accepts every covering insert.
pub proof fn lemma_full_index_insert_hit(ix: IndexModel, row: Seq<DataValue>, ts: Timestamp)
    requires
        !ix.partial,
    ensures
        index_insert(ix, row, ts).1,
{
}

/// In a well-formed index that stores `row`, a point lookup for `row`'s key
/// (with no timestamp bound) returns a result that contains `row`.
pub proof fn lemma_lookup_finds(ix: IndexModel, row: Seq<DataValue>)
    requires
        index_wf(ix),
        covers(row, ix.key_cols),
        index_has_row(ix, row),
    ensures
        find_entry(ix.entries, project(row, ix.key_cols)) >= 0,
        lookup_rows(ix, project(row, ix.key_cols), Option::None).contains(row),
{
    let k = project(row, ix.key_cols);
    let (e, v) = choose|e: int, v: int|
        0 <= e < ix.entries.len() && 0 <= v < ix.entries[e].versions.len() && (
        #[trigger] ix.entries[e].versions[v]).row == row;
    assert(ix.entries[e].key == k);
    lemma_find_entry_spec(ix.entries, k);
    let f = find_entry(ix.entries, k);
    assert(f >= 0);
    assert(ix.entries[f].key == k);
    assert(f == e) by {
        if f != e {
            assert(ix.entries[f].key != ix.entries[e].key);
        }
    }
    lemma_visible_rows_all(ix.entries[e].versions);
    let rows = lookup_rows(ix, k, Option::None);
    assert(rows[v] == row);
}

/// Tagged insert visibility: a row inserted under a known tag whose key is
/// filled is accepted, and a lookup for its key on that index then finds it;
/// the store keeps its shape.
pub proof fn lemma_tagged_insert_visible(s: StoreModel, row: Seq<DataValue>, t: Tag, ts: Timestamp)
    requires
        store_wf(s),
        s.tags.dom().contains(t),
        covers(row, s.indices[s.tags[t]].key_cols),
        find_entry(
            s.indices[s.tags[t]].entries,
            project(row, s.indices[s.tags[t]].key_cols),
        ) >= 0,
    ensures
        store_insert(s, row, Option::Some(t), ts).1,
        lookup_rows(
            store_insert(s, row, Option::Some(t), ts).0.indices[s.tags[t]],
            project(row, s.indices[s.tags[t]].key_cols),
            Option::None,
        ).contains(row),
{
    let i = s.tags[t];
    let ix = s.indices[i];
    let k = project(row, ix.key_cols);
    let (ix2, hit) = index_insert(ix, row, ts);
    assert(hit);
    lemma_index_insert_has_row(ix, row, ts, row);
    assert(index_has_row(ix2, row));
    assert(index_wf(ix2)) by {
        lemma_insert_preserves_wf(ix, row, ts);
    }
    assert(store_insert(s, row, Option::Some(t), ts).0.indices[i] == ix2);
    lemma_lookup_finds(ix2, row);
}

/// An accepted insert keeps an index well formed.
pub proof fn lemma_insert_preserves_wf(ix: IndexModel, row: Seq<DataValue>, ts: Timestamp)
    requires
        index_wf(ix),
        covers(row, ix.key_cols),
    ensures
        index_wf(index_insert(ix, row, ts).0),
{
    let k = project(row, ix.key_cols);
    let e = find_entry(ix.entries, k);
    lemma_find_entry_spec(ix.entries, k);
    let ix2 = index_insert(ix, row, ts).0;
    if e >= 0 {
        assert forall|j: int| 0 <= j < ix2.entries.len() implies crate::single_state::entry_wf(
            #[trigger] ix2.entries[j],
            ix2.key_cols,
        ) by {
            if j == e {
                let vs2 = ix2.entries[j].versions;
                assert forall|m: int| 0 <= m < vs2.len() implies covers(
                    (#[trigger] vs2[m]).row,
                    ix2.key_cols,
                ) && project(vs2[m].row, ix2.key_cols) == ix2.entries[j].key by {
                    if m < vs2.len() - 1 {
                        assert(vs2[m] == ix.entries[e].versions[m]);
                    } else {
                        assert(vs2[m].row == row);
                    }
                }
            } else {
                assert(ix2.entries[j] == ix.entries[j]);
            }
        }
    } else if ix.partial {
    } else {
        let n = ix.entries.len() as int;
        assert forall|j: int| 0 <= j < ix2.entries.len() implies crate::single_state::entry_wf(
            #[trigger] ix2.entries[j],
            ix2.key_cols,
        ) by {
            if j < n {
                assert(ix2.entries[j] == ix.entries[j]);
            } else {
                let vs2 = ix2.entries[j].versions;
                assert(vs2 =~= seq![VersionModel { ts, row }]);
                assert(vs2[0].row == row);
            }
        }
        assert forall|a: int, b: int|
            #![trigger ix2.entries[a], ix2.entries[b]]
            0 <= a < b < ix2.entries.len() implies ix2.entries[a].key != ix2.entries[b].key by {
            if b < n {
                assert(ix2.entries[a] == ix.entries[a]);
                assert(ix2.entries[b] == ix.entries[b]);
            } else {
                assert(ix2.entries[a] == ix.entries[a]);
                assert(ix2.entries[b].key == k);
                assert(ix.entries[a].key != k);
            }
        }
    }
}

/// Partial filtering: in a store where every index is partial and the row's
/// key is a hole everywhere, an untagged insert changes nothing and is not
/// retained, and the key's lookup on any index still reports a hole.
pub proof fn lemma_partial_insert_dropped(s: StoreModel, row: Seq<DataValue>, ts: Timestamp)
    requires
        store_wf(s),
        forall|i: int| 0 <= i < s.indices.len() ==> (#[trigger] s.indices[i]).partial,
        forall|i: int|
            0 <= i < s.indices.len() ==> find_entry(
                (#[trigger] s.indices[i]).entries,
                project(row, s.indices[i].key_cols),
            ) == -1,
    ensures
        !store_insert(s, row, Option::None, ts).1,
        store_insert(s, row, Option::None, ts).0 == s,
{
    lemma_fan_insert(s.indices, row, ts);
    let (ixs2, hit) = fan_insert(s.indices, row, ts);
    assert forall|i: int| 0 <= i < s.indices.len() implies !index_insert(
        #[trigger] s.indices[i],
        row,
        ts,
    ).1 && index_insert(s.indices[i], row, ts).0 == s.indices[i] by {}
    assert(!hit);
    assert forall|i: int| 0 <= i < s.indices.len() implies ixs2[i] == s.indices[i] by {}
    assert(ixs2 =~= s.indices);
    assert(store_insert(s, row, Option::None, ts).0 == s);
}

/// Partial backfill: marking a key filled and then inserting the matching row
/// under the owning tag makes the row visible to lookups on that index.
pub proof fn lemma_fill_then_tagged_insert(s: StoreModel, row: Seq<DataValue>, t: Tag, ts: Timestamp)
    requires
        store_wf(s),
        s.tags.dom().contains(t),
        s.indices[s.tags[t]].partial,
        covers(row, s.indices[s.tags[t]].key_cols),
        find_entry(
            s.indices[s.tags[t]].entries,
            project(row, s.indices[s.tags[t]].key_cols),
        ) == -1,
    ensures
        ({
            let s1 = store_mark_filled(s, project(row, s.indices[s.tags[t]].key_cols), t);
            store_insert(s1, row, Option::Some(t), ts).1 && lookup_rows(
                store_insert(s1, row, Option::Some(t), ts).0.indices[s.tags[t]],
                project(row, s.indices[s.tags[t]].key_cols),
                Option::None,
            ).contains(row)
        }),
{
    let i = s.tags[t];
    let ix = s.indices[i];
    let k = project(row, ix.key_cols);
    let s1 = store_mark_filled(s, k, t);
    let ix1 = s1.indices[i];
    lemma_find_entry_spec(ix.entries, k);
    assert(ix1.entries == ix.entries.push(EntryModel { key: k, versions: Seq::empty() }));
    assert forall|j: int| 0 <= j < ix.entries.len() implies (#[trigger] ix1.entries[j]).key
        != k by {
        assert(ix1.entries[j] == ix.entries[j]);
    }
    assert(ix1.entries[ix.entries.len() as int].key == k);
    lemma_find_entry_at(ix1.entries, k, ix.entries.len() as int);
    assert(store_wf(s1)) by {
        assert forall|j: int| 0 <= j < s1.indices.len() implies index_wf(
            #[trigger] s1.indices[j],
        ) by {
            if j == i {
                assert forall|a: int, b: int|
                    #![trigger ix1.entries[a], ix1.entries[b]]
                    0 <= a < b < ix1.entries.len() implies ix1.entries[a].key
                    != ix1.entries[b].key by {
                    if b < ix.entries.len() {
                        assert(ix1.entries[a] == ix.entries[a]);
                        assert(ix1.entries[b] == ix.entries[b]);
                    } else {
                        assert(ix1.entries[a] == ix.entries[a]);
                        assert(ix1.entries[b].key == k);
                    }
                }
                assert forall|a: int| 0 <= a < ix1.entries.len() implies crate::single_state::entry_wf(
                    #[trigger] ix1.entries[a],
                    ix1.key_cols,
                ) by {
                    if a < ix.entries.len() {
                        assert(ix1.entries[a] == ix.entries[a]);
                    } else {
                        assert(ix1.entries[a].versions.len() == 0);
                        assert(ix1.entries[a].key == k);
                        assert(k.len() == ix.key_cols.len());
                    }
                }
            } else {
                assert(s1.indices[j] == s.indices[j]);
            }
        }
        assert forall|a: int, b: int|
            #![trigger s1.indices[a], s1.indices[b]]
            0 <= a < b < s1.indices.len() implies s1.indices[a].key_cols
            != s1.indices[b].key_cols by {
            assert(s1.indices[a].key_cols == s.indices[a].key_cols);
            assert(s1.indices[b].key_cols == s.indices[b].key_cols);
        }
    }
    assert(s1.tags == s.tags);
    assert(covers(row, s1.indices[i].key_cols));
    lemma_tagged_insert_visible(s1, row, t, ts);
}

/// Removal correctness, first half: after inserting a row that no index held
/// and removing the same values, no index holds it any more, and the removal
/// reported a hit whenever any index exists.
pub proof fn lemma_insert_then_remove(s: StoreModel, row: Seq<DataValue>, ts: Timestamp)
    requires
        store_wf(s),
        s.indices.len() > 0,
        forall|i: int| 0 <= i < s.indices.len() ==> !(#[trigger] s.indices[i]).partial,
        forall|i: int| 0 <= i < s.indices.len() ==> covers(row, (#[trigger] s.indices[i]).key_cols),
        forall|i: int| 0 <= i < s.indices.len() ==> !index_has_row(#[trigger] s.indices[i], row),
    ensures
        ({
            let s1 = store_insert(s, row, Option::None, ts).0;
            let (s2, hit) = store_remove(s1, row);
            hit && forall|i: int|
                0 <= i < s2.indices.len() ==> !index_has_row(#[trigger] s2.indices[i], row)
        }),
{
    lemma_fan_insert(s.indices, row, ts);
    let s1 = store_insert(s, row, Option::None, ts).0;
    lemma_fan_remove(s1.indices, row);
    let (s2, hit) = store_remove(s1, row);
    assert forall|i: int| 0 <= i < s2.indices.len() implies !index_has_row(
        #[trigger] s2.indices[i],
        row,
    ) by {
        let ix = s.indices[i];
        let ix1 = index_insert(ix, row, ts).0;
        assert(s1.indices[i] == ix1);
        lemma_full_index_insert_hit(ix, row, ts);
        lemma_index_remove_clears(ix, row, ts);
        assert(s2.indices[i] == index_remove(ix1, row).0);
    }
    assert(hit) by {
        let ix = s.indices[0];
        let ix1 = index_insert(ix, row, ts).0;
        lemma_full_index_insert_hit(ix, row, ts);
        lemma_index_insert_has_row(ix, row, ts, row);
        lemma_insert_preserves_wf(ix, row, ts);
        assert(index_has_row(ix1, row));
        lemma_remove_hits(ix1, row);
        assert(index_remove(s1.indices[0], row).1);
    }
}

/// An index that stores no version of `row` never returns `row` from a
/// lookup, whatever key is asked for.
pub proof fn lemma_lookup_misses(ix: IndexModel, k: Seq<DataValue>, row: Seq<DataValue>)
    requires
        !index_has_row(ix, row),
    ensures
        !lookup_rows(ix, k, Option::None).contains(row),
{
    let e = find_entry(ix.entries, k);
    lemma_find_entry_spec(ix.entries, k);
    if e >= 0 {
        let rows = lookup_rows(ix, k, Option::None);
        lemma_visible_rows_all(ix.entries[e].versions);
        if rows.contains(row) {
            let v = choose|v: int| 0 <= v < rows.len() && rows[v] == row;
            assert(ix.entries[e].versions[v].row == row);
        }
    }
}

/// A removal of a row an index holds reports a hit.
pub proof fn lemma_remove_hits(ix: IndexModel, row: Seq<DataValue>)
    requires
        index_wf(ix),
        covers(row, ix.key_cols),
        index_has_row(ix, row),
    ensures
        index_remove(ix, row).1,
{
    let k = project(row, ix.key_cols);
    let (e, v) = choose|e: int, v: int|
        0 <= e < ix.entries.len() && 0 <= v < ix.entries[e].versions.len() && (
        #[trigger] ix.entries[e].versions[v]).row == row;
    assert(ix.entries[e].key == k);
    lemma_find_entry_spec(ix.entries, k);
    let f = find_entry(ix.entries, k);
    assert(f >= 0);
    assert(f == e) by {
        if f != e {
            assert(ix.entries[f].key != ix.entries[e].key);
        }
    }
    lemma_find_version_spec(ix.entries[e].versions, row);
    if find_version(ix.entries[e].versions, row) == -1 {
        assert(ix.entries[e].versions[v].row != row);
    }
}

/// After inserting `row` into a well-formed index that did not hold it and
/// removing the same values again, the index holds `row` no more.
pub proof fn lemma_index_remove_clears(ix0: IndexModel, row: Seq<DataValue>, ts: Timestamp)
    requires
        index_wf(ix0),
        covers(row, ix0.key_cols),
        !index_has_row(ix0, row),
        index_insert(ix0, row, ts).1,
    ensures
        !index_has_row(index_remove(index_insert(ix0, row, ts).0, row).0, row),
{
    let k = project(row, ix0.key_cols);
    let e = find_entry(ix0.entries, k);
    lemma_find_entry_spec(ix0.entries, k);
    let ix1 = index_insert(ix0, row, ts).0;
    assert forall|a: int, b: int|
        0 <= a < ix0.entries.len() && 0 <= b < ix0.entries[a].versions.len() implies (
        #[trigger] ix0.entries[a].versions[b]).row != row by {}
    if e >= 0 {
        let vs0 = ix0.entries[e].versions;
        let vs1 = ix1.entries[e].versions;
        assert forall|j: int| 0 <= j < ix0.entries.len() implies (#[trigger] ix1.entries[j]).key
            == ix0.entries[j].key by {
            if j != e {
                assert(ix1.entries[j] == ix0.entries[j]);
            }
        }
        lemma_find_entry_at(ix1.entries, k, e);
        assert forall|j: int| 0 <= j < vs0.len() implies (#[trigger] vs1[j]).row != row by {
            assert(vs1[j] == vs0[j]);
            assert(ix0.entries[e].versions[j].row != row);
        }
        assert(vs1[vs0.len() as int].row == row);
        lemma_find_version_at(vs1, row, vs0.len() as int);
        let ix2 = index_remove(ix1, row).0;
        assert(ix2.entries[e].versions =~= vs1.remove(vs0.len() as int));
        assert(ix2.entries[e].versions =~= vs0);
        assert forall|a: int, b: int|
            0 <= a < ix2.entries.len() && 0 <= b < ix2.entries[a].versions.len() implies (
            #[trigger] ix2.entries[a].versions[b]).row != row by {
            if a == e {
                assert(ix2.entries[a].versions[b] == vs0[b]);
                assert(ix0.entries[e].versions[b].row != row);
            } else {
                assert(ix2.entries[a] == ix0.entries[a]);
                assert(ix0.entries[a].versions[b].row != row);
            }
        }
    } else {
        let n = ix0.entries.len() as int;
        assert forall|j: int| 0 <= j < n implies (#[trigger] ix1.entries[j]).key != k by {
            assert(ix1.entries[j] == ix0.entries[j]);
        }
        assert(ix1.entries[n].key == k);
        lemma_find_entry_at(ix1.entries, k, n);
        let vs1 = ix1.entries[n].versions;
        assert(vs1 =~= seq![VersionModel { ts, row }]);
        assert(vs1[0].row == row);
        lemma_find_version_at(vs1, row, 0);
        let ix2 = index_remove(ix1, row).0;
        assert(ix2.entries[n].versions =~= vs1.remove(0));
        assert(ix2.entries[n].versions.len() == 0);
        assert forall|a: int, b: int|
            0 <= a < ix2.entries.len() && 0 <= b < ix2.entries[a].versions.len() implies (
            #[trigger] ix2.entries[a].versions[b]).row != row by {
            if a < n {
                assert(ix2.entries[a] == ix0.entries[a]);
                assert(ix0.entries[a].versions[b].row != row);
            }
        }
    }
}

/// Removal correctness, second half: removing values that no index holds
/// reports no hit and changes nothing.
pub proof fn lemma_remove_nonexistent(s: StoreModel, row: Seq<DataValue>)
    requires
        store_wf(s),
        forall|i: int| 0 <= i < s.indices.len() ==> covers(row, (#[trigger] s.indices[i]).key_cols),
        forall|i: int| 0 <= i < s.indices.len() ==> !index_has_row(#[trigger] s.indices[i], row),
    ensures
        !store_remove(s, row).1,
        store_remove(s, row).0 == s,
{
    lemma_fan_remove(s.indices, row);
    assert forall|i: int| 0 <= i < s.indices.len() implies !index_remove(
        #[trigger] s.indices[i],
        row,
    ).1 && index_remove(s.indices[i], row).0 == s.indices[i] by {
        let ix = s.indices[i];
        let k = project(row, ix.key_cols);
        let e = find_entry(ix.entries, k);
        lemma_find_entry_spec(ix.entries, k);
        if e >= 0 {
            assert forall|j: int| 0 <= j < ix.entries[e].versions.len() implies (
            #[trigger] ix.entries[e].versions[j]).row != row by {}
            crate::single_state::lemma_find_version_none(ix.entries[e].versions, row);
        }
    }
    let (ixs2, hit) = fan_remove(s.indices, row);
    assert(!hit);
    assert forall|i: int| 0 <= i < s.indices.len() implies ixs2[i] == s.indices[i] by {}
    assert(ixs2 =~= s.indices);
    assert(store_remove(s, row).0 == s);
}

/// Index agreement under full materialization: an untagged insert into a
/// store of only fully materialized indices is absorbed by every index, and
/// pairwise agreement on the stored rows is preserved.
pub proof fn lemma_full_insert_agreement(s: StoreModel, row: Seq<DataValue>, ts: Timestamp)
    requires
        store_wf(s),
        !store_is_partial(s),
        indices_agree(s),
    ensures
        ({
            let s1 = store_insert(s, row, Option::None, ts).0;
            indices_agree(s1) && forall|i: int|
                0 <= i < s1.indices.len() ==> index_has_row(#[trigger] s1.indices[i], row)
        }),
{
    lemma_fan_insert(s.indices, row, ts);
    let s1 = store_insert(s, row, Option::None, ts).0;
    assert forall|i: int| 0 <= i < s1.indices.len() implies index_has_row(
        #[trigger] s1.indices[i],
        row,
    ) by {
        assert(!s.indices[i].partial);
        lemma_full_index_insert_hit(s.indices[i], row, ts);
        lemma_index_insert_has_row(s.indices[i], row, ts, row);
    }
    assert forall|i: int, j: int, r2: Seq<DataValue>|
        #![trigger index_has_row(s1.indices[i], r2), index_has_row(s1.indices[j], r2)]
        0 <= i < s1.indices.len() && 0 <= j < s1.indices.len() implies (index_has_row(
        s1.indices[i],
        r2,
    ) <==> index_has_row(s1.indices[j], r2)) by {
        assert(!s.indices[i].partial);
        assert(!s.indices[j].partial);
        lemma_full_index_insert_hit(s.indices[i], row, ts);
        lemma_full_index_insert_hit(s.indices[j], row, ts);
        lemma_index_insert_has_row(s.indices[i], row, ts, r2);
        lemma_index_insert_has_row(s.indices[j], row, ts, r2);
        assert(index_has_row(s.indices[i], r2) <==> index_has_row(s.indices[j], r2));
    }
}

/// What a version-by-version backfill stores: exactly what the target already
/// stored plus the backfilled versions' rows.
pub proof fn lemma_backfill_versions_has_row(ix: IndexModel, vs: Seq<VersionModel>, r2: Seq<DataValue>)
    requires
        !ix.partial,
    ensures
        backfill_versions(ix, vs).partial == ix.partial,
        backfill_versions(ix, vs).key_cols == ix.key_cols,
        index_has_row(backfill_versions(ix, vs), r2) <==> (index_has_row(ix, r2) || exists|v: int|
            0 <= v < vs.len() && (#[trigger] vs[v]).row == r2),
    decreases vs.len(),
{
    if vs.len() == 0 {
    } else {
        lemma_backfill_versions_has_row(ix, vs.drop_last(), r2);
        let pre = backfill_versions(ix, vs.drop_last());
        lemma_full_index_insert_hit(pre, vs.last().row, vs.last().ts);
        lemma_index_insert_has_row(pre, vs.last().row, vs.last().ts, r2);
        if index_has_row(backfill_versions(ix, vs), r2) {
            if !index_has_row(ix, r2) {
                if r2 == vs.last().row {
                    assert(vs[vs.len() - 1].row == r2);
                } else {
                    let v = choose|v: int|
                        0 <= v < vs.drop_last().len() && (#[trigger] vs.drop_last()[v]).row == r2;
                    assert(vs[v].row == r2);
                }
            }
        }
        if exists|v: int| 0 <= v < vs.len() && (#[trigger] vs[v]).row == r2 {
            let v = choose|v: int| 0 <= v < vs.len() && (#[trigger] vs[v]).row == r2;
            if v < vs.len() - 1 {
                assert(vs.drop_last()[v].row == r2);
            }
        }
    }
}

/// Whether any entry of `entries` stores a version holding `r2`.
pub open spec fn entries_has_row(entries: Seq<EntryModel>, r2: Seq<DataValue>) -> bool {
    exists|e: int, v: int|
        0 <= e < entries.len() && 0 <= v < entries[e].versions.len() && (
        #[trigger] entries[e].versions[v]).row == r2
}

/// What a whole backfill stores: exactly the source entries' rows, plus what
/// the target already stored.
pub proof fn lemma_backfill_entries_has_row(ix: IndexModel, entries: Seq<EntryModel>, r2: Seq<DataValue>)
    requires
        !ix.partial,
    ensures
        backfill_entries(ix, entries).partial == ix.partial,
        backfill_entries(ix, entries).key_cols == ix.key_cols,
        index_has_row(backfill_entries(ix, entries), r2) <==> (index_has_row(ix, r2)
            || entries_has_row(entries, r2)),
    decreases entries.len(),
{
    if entries.len() == 0 {
    } else {
        lemma_backfill_entries_has_row(ix, entries.drop_last(), r2);
        let pre = backfill_entries(ix, entries.drop_last());
        lemma_backfill_versions_has_row(pre, entries.last().versions, r2);
        if index_has_row(backfill_entries(ix, entries), r2) {
            if !index_has_row(ix, r2) {
                if entries_has_row(entries.drop_last(), r2) {
                    let (e, v) = choose|e: int, v: int|
                        0 <= e < entries.drop_last().len() && 0 <= v
                            < entries.drop_last()[e].versions.len() && (
                        #[trigger] entries.drop_last()[e].versions[v]).row == r2;
                    assert(entries[e].versions[v].row == r2);
                } else {
                    let v = choose|v: int|
                        0 <= v < entries.last().versions.len() && (
                        #[trigger] entries.last().versions[v]).row == r2;
                    assert(entries[entries.len() - 1].versions[v].row == r2);
                }
            }
        }
        if entries_has_row(entries, r2) {
            let (e, v) = choose|e: int, v: int|
                0 <= e < entries.len() && 0 <= v < entries[e].versions.len() && (
                #[trigger] entries[e].versions[v]).row == r2;
            if e < entries.len() - 1 {
                assert(entries.drop_last()[e].versions[v].row == r2);
            } else {
                assert(entries.last().versions[v].row == r2);
            }
        }
    }
}

/// Index agreement across `add_key`: registering a second fully materialized
/// index on a store of agreeing, fully materialized indices backfills it so
/// that agreement holds again immediately.
pub proof fn lemma_add_key_agreement(s: StoreModel, cols: Seq<usize>)
    requires
        store_wf(s),
        !store_is_partial(s),
        indices_agree(s),
        find_index(s.indices, cols) == -1,
    ensures
        ({
            let s1 = store_add_key(s, cols, Option::None);
            indices_agree(s1) && !store_is_partial(s1)
        }),
{
    let s1 = store_add_key(s, cols, Option::None);
    let n = s.indices.len() as int;
    if n == 0 {
        assert forall|i: int, j: int, r2: Seq<DataValue>|
            #![trigger index_has_row(s1.indices[i], r2), index_has_row(s1.indices[j], r2)]
            0 <= i < s1.indices.len() && 0 <= j < s1.indices.len() implies (index_has_row(
            s1.indices[i],
            r2,
        ) <==> index_has_row(s1.indices[j], r2)) by {}
        assert(!store_is_partial(s1)) by {
            assert forall|i: int| 0 <= i < s1.indices.len() implies !(
            #[trigger] s1.indices[i]).partial by {
                assert(s1.indices[i] == empty_index(cols, false));
            }
        }
    } else {
        let newix = backfill_entries(empty_index(cols, false), s.indices[0].entries);
        assert forall|i: int, j: int, r2: Seq<DataValue>|
            #![trigger index_has_row(s1.indices[i], r2), index_has_row(s1.indices[j], r2)]
            0 <= i < s1.indices.len() && 0 <= j < s1.indices.len() implies (index_has_row(
            s1.indices[i],
            r2,
        ) <==> index_has_row(s1.indices[j], r2)) by {
            lemma_backfill_entries_has_row(empty_index(cols, false), s.indices[0].entries, r2);
            assert(!index_has_row(empty_index(cols, false), r2));
            assert(index_has_row(newix, r2) <==> entries_has_row(s.indices[0].entries, r2));
            assert(entries_has_row(s.indices[0].entries, r2) == index_has_row(s.indices[0], r2));
            if i < n && j < n {
                assert(s1.indices[i] == s.indices[i]);
                assert(s1.indices[j] == s.indices[j]);
            } else if i < n {
                assert(s1.indices[i] == s.indices[i]);
                assert(s1.indices[j] == newix);
                assert(index_has_row(s.indices[i], r2) <==> index_has_row(s.indices[0], r2));
            } else if j < n {
                assert(s1.indices[i] == newix);
                assert(s1.indices[j] == s.indices[j]);
                assert(index_has_row(s.indices[j], r2) <==> index_has_row(s.indices[0], r2));
            } else {
                assert(s1.indices[i] == newix);
                assert(s1.indices[j] == newix);
            }
        }
        assert(!store_is_partial(s1)) by {
            lemma_backfill_entries_has_row(
                empty_index(cols, false),
                s.indices[0].entries,
                Seq::empty(),
            );
            assert forall|i: int| 0 <= i < s1.indices.len() implies !(
            #[trigger] s1.indices[i]).partial by {
                if i < n {
                    assert(s1.indices[i] == s.indices[i]);
                    assert(!s.indices[i].partial);
                } else {
                    assert(s1.indices[i] == newix);
                }
            }
        }
    }
}

/// The bytes a partial index contributes to the exact-accounting total.
pub open spec fn ix_contrib(ix: IndexModel) -> nat {
    if ix.partial {
        entries_bytes(ix.entries)
    } else {
        0
    }
}

/// Total bytes held under partial indices: what hole-marking could ever free.
pub open spec fn partial_bytes(ixs: Seq<IndexModel>) -> nat
    decreases ixs.len(),
{
    if ixs.len() == 0 {
        0
    } else {
        partial_bytes(ixs.drop_last()) + ix_contrib(ixs.last())
    }
}

/// Exact accounting: the memory estimate sits exactly `partial_bytes` above
/// the baseline `base`.  Tagged inserts and hole-marking preserve this, so
/// for any sequence of accepted tagged inserts followed by matching
/// `mark_hole` calls the estimate returns exactly to `base` and, in
/// particular, never underflows.
pub open spec fn accounted(s: StoreModel, base: nat) -> bool {
    s.mem == base + partial_bytes(s.indices)
}

/// Updating one index adjusts the partial-bytes total by its contribution.
pub proof fn lemma_partial_bytes_update(ixs: Seq<IndexModel>, i: int, ix2: IndexModel)
    requires
        0 <= i < ixs.len(),
    ensures
        partial_bytes(ixs.update(i, ix2)) + ix_contrib(ixs[i]) == partial_bytes(ixs) + ix_contrib(
            ix2,
        ),
    decreases ixs.len(),
{
    let u = ixs.update(i, ix2);
    if i == ixs.len() - 1 {
        assert(u.drop_last() =~= ixs.drop_last());
        assert(u.last() == ix2);
    } else {
        assert(u.drop_last() =~= ixs.drop_last().update(i, ix2));
        assert(u.last() == ixs.last());
        lemma_partial_bytes_update(ixs.drop_last(), i, ix2);
        assert(ixs.drop_last()[i] == ixs[i]);
    }
}

/// One index's contribution never exceeds the total.
pub proof fn lemma_contrib_le_partial(ixs: Seq<IndexModel>, i: int)
    requires
        0 <= i < ixs.len(),
    ensures
        ix_contrib(ixs[i]) <= partial_bytes(ixs),
    decreases ixs.len(),
{
    if i == ixs.len() - 1 {
    } else {
        lemma_contrib_le_partial(ixs.drop_last(), i);
        assert(ixs.drop_last()[i] == ixs[i]);
    }
}

/// Updating one entry adjusts the entry-bytes total by its own bytes.
pub proof fn lemma_entries_bytes_update(entries: Seq<EntryModel>, e: int, e2: EntryModel)
    requires
        0 <= e < entries.len(),
    ensures
        entries_bytes(entries.update(e, e2)) + entry_bytes(entries[e]) == entries_bytes(entries)
            + entry_bytes(e2),
    decreases entries.len(),
{
    let u = entries.update(e, e2);
    if e == entries.len() - 1 {
        assert(u.drop_last() =~= entries.drop_last());
        assert(u.last() == e2);
    } else {
        assert(u.drop_last() =~= entries.drop_last().update(e, e2));
        assert(u.last() == entries.last());
        lemma_entries_bytes_update(entries.drop_last(), e, e2);
        assert(entries.drop_last()[e] == entries[e]);
    }
}

/// One entry's bytes never exceed the entry-bytes total.
pub proof fn lemma_entry_le_entries(entries: Seq<EntryModel>, e: int)
    requires
        0 <= e < entries.len(),
    ensures
        entry_bytes(entries[e]) <= entries_bytes(entries),
    decreases entries.len(),
{
    if e == entries.len() - 1 {
    } else {
        lemma_entry_le_entries(entries.drop_last(), e);
        assert(entries.drop_last()[e] == entries[e]);
    }
}

/// Memory accounting, growth: an accepted tagged insert whose charge does not
/// saturate grows the estimate by exactly the bytes the entry gains.
pub proof fn lemma_account_tagged_insert(
    s: StoreModel,
    row: Seq<DataValue>,
    t: Tag,
    ts: Timestamp,
    base: nat,
)
    requires
        store_wf(s),
        accounted(s, base),
        s.tags.dom().contains(t),
        s.indices[s.tags[t]].partial,
        find_entry(
            s.indices[s.tags[t]].entries,
            project(row, s.indices[s.tags[t]].key_cols),
        ) >= 0,
        row_size(row) + VERSIONED_ROW_HEADER_SIZE <= u64::MAX,
        s.mem + row_size(row) + VERSIONED_ROW_HEADER_SIZE <= u64::MAX,
    ensures
        store_insert(s, row, Option::Some(t), ts).1,
        accounted(store_insert(s, row, Option::Some(t), ts).0, base),
{
    let i = s.tags[t];
    let ix = s.indices[i];
    let k = project(row, ix.key_cols);
    let e = find_entry(ix.entries, k);
    lemma_find_entry_spec(ix.entries, k);
    let (ix2, hit) = index_insert(ix, row, ts);
    assert(hit);
    let vb = version_bytes(VersionModel { ts, row });
    let old_entry = ix.entries[e];
    let new_entry = ix2.entries[e];
    assert(new_entry.versions == old_entry.versions.push(VersionModel { ts, row }));
    assert(new_entry.versions.drop_last() =~= old_entry.versions);
    assert(entry_bytes(new_entry) == entry_bytes(old_entry) + vb);
    lemma_entries_bytes_update(ix.entries, e, new_entry);
    assert(entries_bytes(ix2.entries) == entries_bytes(ix.entries) + vb);
    lemma_partial_bytes_update(s.indices, i, ix2);
    let s1 = store_insert(s, row, Option::Some(t), ts).0;
    assert(partial_bytes(s1.indices) == partial_bytes(s.indices) + vb);
    assert(insert_charge(row) == vb);
    assert(s1.mem == add_sat(s.mem, insert_charge(row)));
    assert(s1.mem == s.mem + vb);
}

/// Memory accounting, filling: marking a key filled adds an empty entry and
/// leaves the accounting equation untouched.
pub proof fn lemma_account_mark_filled(s: StoreModel, key: Seq<DataValue>, t: Tag, base: nat)
    requires
        store_wf(s),
        accounted(s, base),
        s.tags.dom().contains(t),
        s.indices[s.tags[t]].partial,
    ensures
        accounted(store_mark_filled(s, key, t), base),
{
    let i = s.tags[t];
    let ix = s.indices[i];
    let s1 = store_mark_filled(s, key, t);
    let ix2 = s1.indices[i];
    assert(ix2 == IndexModel {
        key_cols: ix.key_cols,
        partial: ix.partial,
        entries: ix.entries.push(EntryModel { key, versions: Seq::empty() }),
    });
    assert(ix2.entries.drop_last() =~= ix.entries);
    assert(versions_bytes(Seq::<VersionModel>::empty()) == 0);
    assert(entries_bytes(ix2.entries) == entries_bytes(ix.entries));
    lemma_partial_bytes_update(s.indices, i, ix2);
}

/// Memory accounting, shrink and no underflow: under exact accounting the
/// bytes `mark_hole` frees never exceed the estimate, and after the hole is
/// marked the accounting equation holds again.  With every entry of every
/// partial index freed, the estimate is back at `base` exactly.
pub proof fn lemma_account_mark_hole(s: StoreModel, key: Seq<DataValue>, t: Tag, base: nat)
    requires
        store_wf(s),
        accounted(s, base),
        s.tags.dom().contains(t),
        s.indices[s.tags[t]].partial,
    ensures
        hole_bytes(s, key, t) <= s.mem,
        accounted(store_mark_hole(s, key, t), base),
{
    let i = s.tags[t];
    let ix = s.indices[i];
    let e = find_entry(ix.entries, key);
    lemma_find_entry_spec(ix.entries, key);
    if e < 0 {
        let s1 = store_mark_hole(s, key, t);
        assert(s.indices.update(i, ix) =~= s.indices);
        assert(s1.indices == s.indices);
        assert(s1.mem == s.mem);
    } else {
        let eb = entry_bytes(ix.entries[e]);
        lemma_entry_le_entries(ix.entries, e);
        assert(eb <= entries_bytes(ix.entries));
        lemma_contrib_le_partial(s.indices, i);
        assert(entries_bytes(ix.entries) <= partial_bytes(s.indices));
        assert(eb <= s.mem);
        assert(sat64(eb) == eb);
        assert(hole_bytes(s, key, t) == eb);
        let ix2 = IndexModel {
            key_cols: ix.key_cols,
            partial: ix.partial,
            entries: ix.entries.remove(e),
        };
        lemma_entries_bytes_remove(ix.entries, e);
        lemma_partial_bytes_update(s.indices, i, ix2);
        let s1 = store_mark_hole(s, key, t);
        assert(s1.indices == s.indices.update(i, ix2));
        assert(partial_bytes(s1.indices) + eb == partial_bytes(s.indices));
        assert(s1.mem == s.mem - eb);
    }
}

} // verus!
