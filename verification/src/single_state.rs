//! One versioned index store: rows keyed by the projection of the row onto
//! this index's key columns, with per-key hole bookkeeping when the index is
//! partial.
//!
//! A key either has an entry (the key is *filled*; it may hold zero or more
//! row versions) or it has none.  For a partial index a missing entry is a
//! *hole*: inserts for that key are refused until the key is marked filled.
//! For a fully materialized index a missing entry only means no row has been
//! stored yet, and an insert creates the entry.

use vstd::prelude::*;

use crate::data::{
    covers, project, row_size, sat64, sat_usize, DataType, DataValue, LookupResult, Timestamp,
    clone_row, project_row, rows_equal, row_size_bytes, VERSIONED_ROW_HEADER_SIZE,
};

verus! {

/// One stored version of a row, with the timestamp it was inserted under.
pub struct VersionedRow {
    pub ts: Timestamp,
    pub row: Vec<DataType>,
}

/// The mathematical reading of one stored version.
pub ghost struct VersionModel {
    pub ts: Timestamp,
    pub row: Seq<DataValue>,
}

impl View for VersionedRow {
    type V = VersionModel;

    open spec fn view(&self) -> VersionModel {
        VersionModel { ts: self.ts, row: self.row.deep_view() }
    }
}

impl DeepView for VersionedRow {
    type V = VersionModel;

    open spec fn deep_view(&self) -> VersionModel {
        self.view()
    }
}

/// Everything stored under one key of an index.
pub struct KeyEntry {
    pub key: Vec<DataType>,
    pub versions: Vec<VersionedRow>,
}

/// The mathematical reading of one key's entry.
pub ghost struct EntryModel {
    pub key: Seq<DataValue>,
    pub versions: Seq<VersionModel>,
}

impl View for KeyEntry {
    type V = EntryModel;

    open spec fn view(&self) -> EntryModel {
        EntryModel { key: self.key.deep_view(), versions: self.versions.deep_view() }
    }
}

impl DeepView for KeyEntry {
    type V = EntryModel;

    open spec fn deep_view(&self) -> EntryModel {
        self.view()
    }
}

/// One index over the shared row set, keyed by `key_cols`.
pub struct SingleState {
    pub key_cols: Vec<usize>,
    pub partial: bool,
    pub entries: Vec<KeyEntry>,
}

/// The mathematical reading of one index.
pub ghost struct IndexModel {
    pub key_cols: Seq<usize>,
    pub partial: bool,
    pub entries: Seq<EntryModel>,
}

impl View for SingleState {
    type V = IndexModel;

    open spec fn view(&self) -> IndexModel {
        IndexModel {
            key_cols: self.key_cols@,
            partial: self.partial,
            entries: self.entries.deep_view(),
        }
    }
}

impl DeepView for SingleState {
    type V = IndexModel;

    open spec fn deep_view(&self) -> IndexModel {
        self.view()
    }
}

/// Position of the first entry stored under key `k`, or -1 if `k` has none.
pub open spec fn find_entry(entries: Seq<EntryModel>, k: Seq<DataValue>) -> int
    decreases entries.len(),
{
    if entries.len() == 0 {
        -1
    } else if entries[0].key == k {
        0
    } else {
        let r = find_entry(entries.drop_first(), k);
        if r < 0 {
            -1
        } else {
            r + 1
        }
    }
}

/// Position of the first version holding exactly the row `row`, or -1.
pub open spec fn find_version(vs: Seq<VersionModel>, row: Seq<DataValue>) -> int
    decreases vs.len(),
{
    if vs.len() == 0 {
        -1
    } else if vs[0].row == row {
        0
    } else {
        let r = find_version(vs.drop_first(), row);
        if r < 0 {
            -1
        } else {
            r + 1
        }
    }
}

/// Bytes attributed to one stored version: row payload plus fixed overhead.
pub open spec fn version_bytes(v: VersionModel) -> nat {
    row_size(v.row) + VERSIONED_ROW_HEADER_SIZE as nat
}

/// Bytes attributed to a sequence of stored versions.
pub open spec fn versions_bytes(vs: Seq<VersionModel>) -> nat
    decreases vs.len(),
{
    if vs.len() == 0 {
        0
    } else {
        versions_bytes(vs.drop_last()) + version_bytes(vs.last())
    }
}

/// Bytes attributed to one key's entry.
pub open spec fn entry_bytes(e: EntryModel) -> nat {
    versions_bytes(e.versions)
}

/// Bytes attributed to every entry of an index.
pub open spec fn entries_bytes(entries: Seq<EntryModel>) -> nat
    decreases entries.len(),
{
    if entries.len() == 0 {
        0
    } else {
        entries_bytes(entries.drop_last()) + entry_bytes(entries.last())
    }
}

/// Number of stored row versions over a sequence of entries.
pub open spec fn entries_rows(entries: Seq<EntryModel>) -> nat
    decreases entries.len(),
{
    if entries.len() == 0 {
        0
    } else {
        entries_rows(entries.drop_last()) + entries.last().versions.len()
    }
}

/// Whether a version is visible as of the given timestamp bound.
pub open spec fn version_visible(v: VersionModel, ts: Option<Timestamp>) -> bool {
    match ts {
        Option::None => true,
        Option::Some(t) => v.ts <= t,
    }
}

/// The rows of a version sequence visible as of `ts`, in storage order.
pub open spec fn visible_rows(vs: Seq<VersionModel>, ts: Option<Timestamp>) -> Seq<Seq<DataValue>>
    decreases vs.len(),
{
    if vs.len() == 0 {
        Seq::empty()
    } else {
        let rest = visible_rows(vs.drop_last(), ts);
        if version_visible(vs.last(), ts) {
            rest + seq![vs.last().row]
        } else {
            rest
        }
    }
}

/// Every row of every entry, entries in order, versions in order.
pub open spec fn all_rows(entries: Seq<EntryModel>) -> Seq<Seq<DataValue>>
    decreases entries.len(),
{
    if entries.len() == 0 {
        Seq::empty()
    } else {
        all_rows(entries.drop_last()) + visible_rows(entries.last().versions, Option::None)
    }
}

/// Well-formedness of one entry against the index's key columns: the key has
/// the column set's width, and every stored row projects onto exactly that key.
pub open spec fn entry_wf(e: EntryModel, cols: Seq<usize>) -> bool {
    &&& e.key.len() == cols.len()
    &&& forall|i: int|
        0 <= i < e.versions.len() ==> covers(#[trigger] e.versions[i].row, cols) && project(
            e.versions[i].row,
            cols,
        ) == e.key
}

/// Well-formedness of one index: every entry is well formed and entry keys
/// are pairwise distinct.
pub open spec fn index_wf(ix: IndexModel) -> bool {
    &&& forall|i: int| 0 <= i < ix.entries.len() ==> entry_wf(#[trigger] ix.entries[i], ix.key_cols)
    &&& forall|i: int, j: int|
        #![trigger ix.entries[i], ix.entries[j]]
        0 <= i < j < ix.entries.len() ==> ix.entries[i].key != ix.entries[j].key
}

/// The index after inserting `row` at `ts`, and whether the insert was
/// accepted.  A partial index refuses a row whose key is a hole.
pub open spec fn index_insert(ix: IndexModel, row: Seq<DataValue>, ts: Timestamp) -> (IndexModel, bool) {
    let k = project(row, ix.key_cols);
    let e = find_entry(ix.entries, k);
    if e >= 0 {
        (
            IndexModel {
                key_cols: ix.key_cols,
                partial: ix.partial,
                entries: ix.entries.update(
                    e,
                    EntryModel {
                        key: ix.entries[e].key,
                        versions: ix.entries[e].versions.push(VersionModel { ts, row }),
                    },
                ),
            },
            true,
        )
    } else if ix.partial {
        (ix, false)
    } else {
        (
            IndexModel {
                key_cols: ix.key_cols,
                partial: ix.partial,
                entries: ix.entries.push(
                    EntryModel { key: k, versions: seq![VersionModel { ts, row }] },
                ),
            },
            true,
        )
    }
}

/// The index after removing one version holding exactly `row`, and whether a
/// matching version was found.
pub open spec fn index_remove(ix: IndexModel, row: Seq<DataValue>) -> (IndexModel, bool) {
    let k = project(row, ix.key_cols);
    let e = find_entry(ix.entries, k);
    if e < 0 {
        (ix, false)
    } else {
        let v = find_version(ix.entries[e].versions, row);
        if v < 0 {
            (ix, false)
        } else {
            (
                IndexModel {
                    key_cols: ix.key_cols,
                    partial: ix.partial,
                    entries: ix.entries.update(
                        e,
                        EntryModel {
                            key: ix.entries[e].key,
                            versions: ix.entries[e].versions.remove(v),
                        },
                    ),
                },
                true,
            )
        }
    }
}

/// The rows a point lookup for key `k` returns, as of `ts`.
pub open spec fn lookup_rows(ix: IndexModel, k: Seq<DataValue>, ts: Option<Timestamp>) -> Seq<
    Seq<DataValue>,
> {
    let e = find_entry(ix.entries, k);
    if e < 0 {
        Seq::empty()
    } else {
        visible_rows(ix.entries[e].versions, ts)
    }
}

/// The entries left after evicting each key of `keys` in order, with the
/// mathematical byte count freed.
pub open spec fn evict_list(entries: Seq<EntryModel>, keys: Seq<Seq<DataValue>>) -> (
    Seq<EntryModel>,
    nat,
)
    decreases keys.len(),
{
    if keys.len() == 0 {
        (entries, 0)
    } else {
        let (e1, b1) = evict_list(entries, keys.drop_last());
        let e = find_entry(e1, keys.last());
        if e < 0 {
            (e1, b1)
        } else {
            (e1.remove(e), b1 + entry_bytes(e1[e]))
        }
    }
}

/// `find_entry` returns -1 exactly when no entry has the key, and otherwise
/// the position of the first entry that does.
pub proof fn lemma_find_entry_spec(entries: Seq<EntryModel>, k: Seq<DataValue>)
    ensures
        find_entry(entries, k) == -1 || (0 <= find_entry(entries, k) < entries.len()),
        find_entry(entries, k) == -1 ==> forall|j: int|
            0 <= j < entries.len() ==> (#[trigger] entries[j]).key != k,
        find_entry(entries, k) >= 0 ==> entries[find_entry(entries, k)].key == k && forall|j: int|
            0 <= j < find_entry(entries, k) ==> (#[trigger] entries[j]).key != k,
    decreases entries.len(),
{
    if entries.len() == 0 {
    } else if entries[0].key == k {
    } else {
        lemma_find_entry_spec(entries.drop_first(), k);
        assert forall|j: int| 1 <= j < entries.len() implies entries.drop_first()[j - 1]
            == entries[j] by {}
    }
}

/// The first position with the key is what `find_entry` returns.
pub proof fn lemma_find_entry_at(entries: Seq<EntryModel>, k: Seq<DataValue>, i: int)
    requires
        0 <= i < entries.len(),
        entries[i].key == k,
        forall|j: int| 0 <= j < i ==> (#[trigger] entries[j]).key != k,
    ensures
        find_entry(entries, k) == i,
    decreases i,
{
    if i == 0 {
    } else {
        assert(entries[0].key != k);
        assert forall|j: int| 0 <= j < i - 1 implies (#[trigger] entries.drop_first()[j]).key
            != k by {
            assert(entries.drop_first()[j] == entries[j + 1]);
        }
        assert(entries.drop_first()[i - 1] == entries[i]);
        lemma_find_entry_at(entries.drop_first(), k, i - 1);
    }
}

/// With no entry under the key, `find_entry` returns -1.
pub proof fn lemma_find_entry_none(entries: Seq<EntryModel>, k: Seq<DataValue>)
    requires
        forall|j: int| 0 <= j < entries.len() ==> (#[trigger] entries[j]).key != k,
    ensures
        find_entry(entries, k) == -1,
    decreases entries.len(),
{
    if entries.len() == 0 {
    } else {
        assert forall|j: int| 0 <= j < entries.len() - 1 implies (#[trigger] entries.drop_first()[j]).key != k by {
            assert(entries.drop_first()[j] == entries[j + 1]);
        }
        lemma_find_entry_none(entries.drop_first(), k);
    }
}

/// `find_version` returns -1 exactly when no version holds the row, and
/// otherwise the position of the first version that does.
pub proof fn lemma_find_version_spec(vs: Seq<VersionModel>, row: Seq<DataValue>)
    ensures
        find_version(vs, row) == -1 || (0 <= find_version(vs, row) < vs.len()),
        find_version(vs, row) == -1 ==> forall|j: int|
            0 <= j < vs.len() ==> (#[trigger] vs[j]).row != row,
        find_version(vs, row) >= 0 ==> vs[find_version(vs, row)].row == row && forall|j: int|
            0 <= j < find_version(vs, row) ==> (#[trigger] vs[j]).row != row,
    decreases vs.len(),
{
    if vs.len() == 0 {
    } else if vs[0].row == row {
    } else {
        lemma_find_version_spec(vs.drop_first(), row);
        assert forall|j: int| 1 <= j < vs.len() implies vs.drop_first()[j - 1] == vs[j] by {}
    }
}

/// The first position with the row is what `find_version` returns.
pub proof fn lemma_find_version_at(vs: Seq<VersionModel>, row: Seq<DataValue>, i: int)
    requires
        0 <= i < vs.len(),
        vs[i].row == row,
        forall|j: int| 0 <= j < i ==> (#[trigger] vs[j]).row != row,
    ensures
        find_version(vs, row) == i,
    decreases i,
{
    if i == 0 {
    } else {
        assert(vs[0].row != row);
        assert forall|j: int| 0 <= j < i - 1 implies (#[trigger] vs.drop_first()[j]).row != row by {
            assert(vs.drop_first()[j] == vs[j + 1]);
        }
        assert(vs.drop_first()[i - 1] == vs[i]);
        lemma_find_version_at(vs.drop_first(), row, i - 1);
    }
}

/// With no version holding the row, `find_version` returns -1.
pub proof fn lemma_find_version_none(vs: Seq<VersionModel>, row: Seq<DataValue>)
    requires
        forall|j: int| 0 <= j < vs.len() ==> (#[trigger] vs[j]).row != row,
    ensures
        find_version(vs, row) == -1,
    decreases vs.len(),
{
    if vs.len() == 0 {
    } else {
        assert forall|j: int| 0 <= j < vs.len() - 1 implies (#[trigger] vs.drop_first()[j]).row != row by {
            assert(vs.drop_first()[j] == vs[j + 1]);
        }
        lemma_find_version_none(vs.drop_first(), row);
    }
}

/// Removing one entry subtracts exactly its bytes from the total.
pub proof fn lemma_entries_bytes_remove(entries: Seq<EntryModel>, e: int)
    requires
        0 <= e < entries.len(),
    ensures
        entries_bytes(entries.remove(e)) + entry_bytes(entries[e]) == entries_bytes(entries),
    decreases entries.len(),
{
    let u = entries.remove(e);
    if e == entries.len() - 1 {
        assert(u =~= entries.drop_last());
    } else {
        assert(u.drop_last() =~= entries.drop_last().remove(e));
        assert(u.last() == entries.last());
        lemma_entries_bytes_remove(entries.drop_last(), e);
        assert(entries.drop_last()[e] == entries[e]);
    }
}

/// Whether `k` is the key of some entry of `entries`.
pub open spec fn key_of_some_entry(entries: Seq<EntryModel>, k: Seq<DataValue>) -> bool {
    exists|i: int| 0 <= i < entries.len() && k == (#[trigger] entries[i]).key
}

/// Whether `e` is one of the entries of `entries`.
pub open spec fn entry_of(entries: Seq<EntryModel>, e: EntryModel) -> bool {
    exists|i: int| 0 <= i < entries.len() && e == (#[trigger] entries[i])
}

/// Removing one entry keeps an index well formed.
pub proof fn lemma_remove_entry_wf(ix: IndexModel, i: int)
    requires
        index_wf(ix),
        0 <= i < ix.entries.len(),
    ensures
        index_wf(IndexModel { key_cols: ix.key_cols, partial: ix.partial, entries: ix.entries.remove(i) }),
{
    let r = ix.entries.remove(i);
    assert forall|j: int| 0 <= j < r.len() implies entry_wf(#[trigger] r[j], ix.key_cols) by {
        if j < i {
            assert(r[j] == ix.entries[j]);
        } else {
            assert(r[j] == ix.entries[j + 1]);
        }
    }
    assert forall|a: int, b: int|
        #![trigger r[a], r[b]]
        0 <= a < b < r.len() implies r[a].key != r[b].key by {
        let a0 = if a < i { a } else { a + 1 };
        let b0 = if b < i { b } else { b + 1 };
        assert(r[a] == ix.entries[a0]);
        assert(r[b] == ix.entries[b0]);
    }
}

impl SingleState {
    /// A fresh, empty index over `columns`, partial iff `partial`.
    pub fn new(columns: &Vec<usize>, partial: bool) -> (s: SingleState)
        ensures
            s@.key_cols == columns@,
            s@.partial == partial,
            s@.entries.len() == 0,
            index_wf(s@),
    {
        let mut key_cols: Vec<usize> = Vec::new();
        let mut i: usize = 0;
        while i < columns.len()
            invariant
                0 <= i <= columns.len(),
                key_cols@ =~= columns@.take(i as int),
            decreases columns.len() - i,
        {
            key_cols.push(columns[i]);
            i = i + 1;
        }
        proof {
            assert(key_cols@ =~= columns@);
        }
        let s = SingleState { key_cols, partial, entries: Vec::new() };
        proof {
            assert(s@.entries =~= Seq::<EntryModel>::empty());
        }
        s
    }

    /// The key-column set this index is keyed on.
    pub fn key(&self) -> (r: &Vec<usize>)
        ensures
            r@ == self@.key_cols,
    {
        &self.key_cols
    }

    /// Whether this index is partially materialized.
    pub fn partial(&self) -> (r: bool)
        ensures
            r == self@.partial,
    {
        self.partial
    }

    /// Position of the entry stored under `k`, if `k` is filled.
    pub fn find_key(&self, k: &Vec<DataType>) -> (r: Option<usize>)
        ensures
            match r {
                Option::Some(i) => find_entry(self@.entries, k.deep_view()) == i as int
                    && i < self.entries.len(),
                Option::None => find_entry(self@.entries, k.deep_view()) == -1,
            },
    {
        let ghost kd = k.deep_view();
        let mut i: usize = 0;
        while i < self.entries.len()
            invariant
                0 <= i <= self.entries.len(),
                kd == k.deep_view(),
                forall|j: int| 0 <= j < i ==> (#[trigger] self@.entries[j]).key != kd,
            decreases self.entries.len() - i,
        {
            let eq = rows_equal(&self.entries[i].key, k);
            proof {
                assert(self@.entries[i as int] == self.entries@[i as int]@);
            }
            if eq {
                proof {
                    lemma_find_entry_at(self@.entries, kd, i as int);
                }
                return Option::Some(i);
            }
            i = i + 1;
        }
        proof {
            lemma_find_entry_none(self@.entries, kd);
        }
        Option::None
    }

    /// Position of the first version of `vs` holding exactly `r`'s values.
    fn find_version_idx(vs: &Vec<VersionedRow>, r: &Vec<DataType>) -> (res: Option<usize>)
        ensures
            match res {
                Option::Some(i) => find_version(vs.deep_view(), r.deep_view()) == i as int
                    && i < vs.len(),
                Option::None => find_version(vs.deep_view(), r.deep_view()) == -1,
            },
    {
        let ghost rd = r.deep_view();
        let mut i: usize = 0;
        while i < vs.len()
            invariant
                0 <= i <= vs.len(),
                rd == r.deep_view(),
                forall|j: int| 0 <= j < i ==> (#[trigger] vs.deep_view()[j]).row != rd,
            decreases vs.len() - i,
        {
            let eq = rows_equal(&vs[i].row, r);
            proof {
                assert(vs.deep_view()[i as int] == vs@[i as int]@);
            }
            if eq {
                proof {
                    lemma_find_version_at(vs.deep_view(), rd, i as int);
                }
                return Option::Some(i);
            }
            i = i + 1;
        }
        proof {
            lemma_find_version_none(vs.deep_view(), rd);
        }
        Option::None
    }

    /// Insert one row version at `ts`; refused only when this index is
    /// partial and the row's key is a hole.
    pub fn insert_row(&mut self, row: Vec<DataType>, ts: Timestamp) -> (hit: bool)
        requires
            covers(row.deep_view(), old(self)@.key_cols),
            index_wf(old(self)@),
        ensures
            final(self)@ == index_insert(old(self)@, row.deep_view(), ts).0,
            hit == index_insert(old(self)@, row.deep_view(), ts).1,
            index_wf(final(self)@),
    {
        let ghost ix0 = self@;
        let ghost rd = row.deep_view();
        let k = project_row(&row, &self.key_cols);
        match self.find_key(&k) {
            Option::Some(i) => {
                let ghost e = find_entry(ix0.entries, project(rd, ix0.key_cols));
                let mut entry = self.entries.remove(i);
                entry.versions.push(VersionedRow { ts, row });
                self.entries.insert(i, entry);
                proof {
                    let target = index_insert(ix0, rd, ts).0;
                    assert(self@.entries[i as int].versions =~= ix0.entries[e].versions.push(
                        VersionModel { ts, row: rd },
                    ));
                    assert(self@.entries[i as int] == target.entries[e]);
                    assert(self@.entries =~= target.entries);
                    lemma_find_entry_spec(ix0.entries, project(rd, ix0.key_cols));
                    assert forall|j: int| 0 <= j < self@.entries.len() implies entry_wf(
                        #[trigger] self@.entries[j],
                        ix0.key_cols,
                    ) by {
                        if j != i as int {
                            assert(self@.entries[j] == ix0.entries[j]);
                        }
                    }
                }
                true
            },
            Option::None => {
                if self.partial {
                    return false;
                }
                let ghost kd = k.deep_view();
                let mut versions: Vec<VersionedRow> = Vec::new();
                versions.push(VersionedRow { ts, row });
                self.entries.push(KeyEntry { key: k, versions });
                proof {
                    let target = index_insert(ix0, rd, ts).0;
                    let ne = self@.entries[ix0.entries.len() as int];
                    assert(ne.versions =~= seq![VersionModel { ts, row: rd }]);
                    assert(ne.key == kd);
                    assert(ne == target.entries.last());
                    assert(self@.entries =~= target.entries);
                    lemma_find_entry_spec(ix0.entries, kd);
                    assert forall|j: int| 0 <= j < self@.entries.len() implies entry_wf(
                        #[trigger] self@.entries[j],
                        ix0.key_cols,
                    ) by {
                        if j < ix0.entries.len() {
                            assert(self@.entries[j] == ix0.entries[j]);
                        } else {
                            assert(self@.entries[j] == ne);
                        }
                    }
                }
                true
            },
        }
    }

    /// Remove one version holding exactly the values of `r`; sets `hit` when
    /// a matching version was found.
    pub fn remove_row(&mut self, r: &Vec<DataType>, hit: &mut bool, _ts: Timestamp)
        requires
            covers(r.deep_view(), old(self)@.key_cols),
            index_wf(old(self)@),
        ensures
            final(self)@ == index_remove(old(self)@, r.deep_view()).0,
            *final(hit) == (*old(hit) || index_remove(old(self)@, r.deep_view()).1),
            index_wf(final(self)@),
    {
        let ghost ix0 = self@;
        let ghost rd = r.deep_view();
        let k = project_row(r, &self.key_cols);
        match self.find_key(&k) {
            Option::Some(i) => {
                let ghost e = i as int;
                let ghost vs0 = ix0.entries[e].versions;
                proof {
                    assert(ix0.entries[e] == self.entries@[e]@);
                }
                let mut entry = self.entries.remove(i);
                proof {
                    assert(entry@ == ix0.entries[e]);
                }
                match Self::find_version_idx(&entry.versions, r) {
                    Option::Some(v) => {
                        entry.versions.remove(v);
                        self.entries.insert(i, entry);
                        *hit = true;
                        proof {
                            let target = index_remove(ix0, rd).0;
                            assert(self@.entries[e] == self.entries@[e]@);
                            assert(self@.entries[e].versions =~= vs0.remove(v as int));
                            assert(self@.entries[e] == target.entries[e]);
                            assert forall|j: int| 0 <= j < self@.entries.len() implies self@.entries[j]
                                == target.entries[j] by {
                                assert(self@.entries[j] == self.entries@[j]@);
                            }
                            assert(self@.entries =~= target.entries);
                            lemma_find_version_spec(vs0, rd);
                            assert forall|j: int| 0 <= j < self@.entries.len() implies entry_wf(
                                #[trigger] self@.entries[j],
                                ix0.key_cols,
                            ) by {
                                if j != e {
                                    assert(self@.entries[j] == ix0.entries[j]);
                                } else {
                                    let nvs = vs0.remove(v as int);
                                    assert(entry_wf(ix0.entries[e], ix0.key_cols));
                                    assert forall|m: int| 0 <= m < nvs.len() implies covers(
                                        (#[trigger] nvs[m]).row,
                                        ix0.key_cols,
                                    ) && project(nvs[m].row, ix0.key_cols)
                                        == self@.entries[j].key by {
                                        if m < v as int {
                                            assert(nvs[m] == vs0[m]);
                                        } else {
                                            assert(nvs[m] == vs0[m + 1]);
                                        }
                                    }
                                }
                            }
                        }
                    },
                    Option::None => {
                        self.entries.insert(i, entry);
                        proof {
                            assert forall|j: int| 0 <= j < self@.entries.len() implies self@.entries[j]
                                == ix0.entries[j] by {
                                assert(self@.entries[j] == self.entries@[j]@);
                            }
                            assert(self@.entries =~= ix0.entries);
                            assert(self@ == ix0);
                        }
                    },
                }
            },
            Option::None => {
                proof {
                    assert(index_remove(ix0, rd).0 == ix0);
                }
            },
        }
    }

    /// Point lookup for key `k`, visible as of `ts`; `Missing` marks a hole.
    pub fn lookup(&self, k: &Vec<DataType>, ts: Option<Timestamp>) -> (r: LookupResult)
        ensures
            ({
                let e = find_entry(self@.entries, k.deep_view());
                if self@.partial && e < 0 {
                    r matches LookupResult::Missing
                } else {
                    r matches LookupResult::Found(rows) && rows.deep_view() == lookup_rows(
                        self@,
                        k.deep_view(),
                        ts,
                    )
                }
            }),
    {
        match self.find_key(k) {
            Option::None => {
                if self.partial {
                    LookupResult::Missing
                } else {
                    let rows: Vec<Vec<DataType>> = Vec::new();
                    proof {
                        assert(rows.deep_view() =~= lookup_rows(self@, k.deep_view(), ts));
                    }
                    LookupResult::Found(rows)
                }
            },
            Option::Some(i) => {
                let entry = &self.entries[i];
                let ghost vs = self@.entries[i as int].versions;
                let mut rows: Vec<Vec<DataType>> = Vec::new();
                let mut vi: usize = 0;
                while vi < entry.versions.len()
                    invariant
                        0 <= vi <= entry.versions.len(),
                        entry@ == self@.entries[i as int],
                        vs == entry@.versions,
                        rows.deep_view() =~= visible_rows(vs.take(vi as int), ts),
                    decreases entry.versions.len() - vi,
                {
                    let visible = match ts {
                        Option::None => true,
                        Option::Some(t) => entry.versions[vi].ts <= t,
                    };
                    proof {
                        assert(vs.take(vi as int + 1).drop_last() =~= vs.take(vi as int));
                        assert(vs.take(vi as int + 1).last() == vs[vi as int]);
                    }
                    if visible {
                        rows.push(clone_row(&entry.versions[vi].row));
                        proof {
                            assert(rows.deep_view() =~= visible_rows(vs.take(vi as int + 1), ts));
                        }
                    }
                    vi = vi + 1;
                }
                proof {
                    assert(vs.take(vs.len() as int) =~= vs);
                }
                LookupResult::Found(rows)
            },
        }
    }

    /// Mark key `k` as filled: create its (still empty) entry.
    pub fn mark_filled(&mut self, k: Vec<DataType>)
        requires
            old(self)@.partial,
            index_wf(old(self)@),
            find_entry(old(self)@.entries, k.deep_view()) == -1,
            k.deep_view().len() == old(self)@.key_cols.len(),
        ensures
            final(self)@ == (IndexModel {
                key_cols: old(self)@.key_cols,
                partial: old(self)@.partial,
                entries: old(self)@.entries.push(
                    EntryModel { key: k.deep_view(), versions: Seq::empty() },
                ),
            }),
            index_wf(final(self)@),
    {
        let ghost ix0 = self@;
        let ghost kd = k.deep_view();
        self.entries.push(KeyEntry { key: k, versions: Vec::new() });
        proof {
            let ne = self@.entries.last();
            assert(ne.versions =~= Seq::<VersionModel>::empty());
            assert(ne == EntryModel { key: kd, versions: Seq::empty() });
            assert(self@.entries =~= ix0.entries.push(ne));
            lemma_find_entry_spec(ix0.entries, kd);
            assert forall|j: int| 0 <= j < self@.entries.len() implies entry_wf(
                #[trigger] self@.entries[j],
                ix0.key_cols,
            ) by {
                if j < ix0.entries.len() {
                    assert(self@.entries[j] == ix0.entries[j]);
                }
            }
        }
    }

    /// Remove key `k`'s entry outright, reporting the bytes its versions held
    /// (clamped at `u64::MAX`); 0 when `k` has no entry.
    pub fn take_key(&mut self, k: &Vec<DataType>) -> (freed: u64)
        requires
            index_wf(old(self)@),
        ensures
            ({
                let e = find_entry(old(self)@.entries, k.deep_view());
                if e < 0 {
                    final(self)@ == old(self)@ && freed == 0
                } else {
                    final(self)@ == (IndexModel {
                        key_cols: old(self)@.key_cols,
                        partial: old(self)@.partial,
                        entries: old(self)@.entries.remove(e),
                    }) && freed == sat64(entry_bytes(old(self)@.entries[e]))
                }
            }),
            index_wf(final(self)@),
    {
        let ghost ix0 = self@;
        match self.find_key(k) {
            Option::None => 0,
            Option::Some(i) => {
                let entry = self.entries.remove(i);
                let freed = Self::entry_size(&entry);
                proof {
                    assert(self@.entries =~= ix0.entries.remove(i as int));
                    lemma_remove_entry_wf(ix0, i as int);
                }
                freed
            },
        }
    }

    /// Bytes held by one entry's versions, clamped at `u64::MAX`.
    fn entry_size(entry: &KeyEntry) -> (n: u64)
        ensures
            n == sat64(entry_bytes(entry@)),
    {
        let ghost vs = entry@.versions;
        let mut acc: u64 = 0;
        let mut i: usize = 0;
        while i < entry.versions.len()
            invariant
                0 <= i <= entry.versions.len(),
                vs == entry@.versions,
                acc == sat64(versions_bytes(vs.take(i as int))),
            decreases entry.versions.len() - i,
        {
            let rb = row_size_bytes(&entry.versions[i].row);
            proof {
                assert(vs.take(i as int + 1).drop_last() =~= vs.take(i as int));
                assert(vs.take(i as int + 1).last() == vs[i as int]);
            }
            acc = acc.saturating_add(rb).saturating_add(VERSIONED_ROW_HEADER_SIZE);
            i = i + 1;
        }
        proof {
            assert(vs.take(vs.len() as int) =~= vs);
        }
        acc
    }

    /// Number of stored row versions in this index.
    pub fn rows(&self) -> (n: usize)
        ensures
            n == sat_usize(entries_rows(self@.entries)),
    {
        let ghost es = self@.entries;
        let mut acc: usize = 0;
        let mut i: usize = 0;
        while i < self.entries.len()
            invariant
                0 <= i <= self.entries.len(),
                es == self@.entries,
                acc == sat_usize(entries_rows(es.take(i as int))),
            decreases self.entries.len() - i,
        {
            proof {
                assert(es.take(i as int + 1).drop_last() =~= es.take(i as int));
                assert(es.take(i as int + 1).last() == es[i as int]);
            }
            acc = acc.saturating_add(self.entries[i].versions.len());
            i = i + 1;
        }
        proof {
            assert(es.take(es.len() as int) =~= es);
        }
        acc
    }

    /// Evict up to `count` keys drawn at random from this index: each drawn
    /// key's entry is dropped outright.  Returns the bytes those entries
    /// held (clamped at `u64::MAX`) and the evicted keys' values.
    pub fn evict_random_keys(&mut self, count: usize) -> (out: (u64, Vec<Vec<DataType>>))
        requires
            index_wf(old(self)@),
        ensures
            index_wf(final(self)@),
            final(self)@.key_cols == old(self)@.key_cols,
            final(self)@.partial == old(self)@.partial,
            entries_bytes(final(self)@.entries) <= entries_bytes(old(self)@.entries),
            out.0 == sat64(
                (entries_bytes(old(self)@.entries) - entries_bytes(final(self)@.entries)) as nat,
            ),
            out.1.len() as int == (if count as int <= old(self)@.entries.len() {
                count as int
            } else {
                old(self)@.entries.len() as int
            }),
            final(self)@.entries.len() == old(self)@.entries.len() - out.1.len(),
            forall|j: int|
                0 <= j < out.1.len() ==> key_of_some_entry(
                    old(self)@.entries,
                    #[trigger] out.1.deep_view()[j],
                ),
            forall|j: int|
                0 <= j < final(self)@.entries.len() ==> entry_of(
                    old(self)@.entries,
                    #[trigger] final(self)@.entries[j],
                ),
    {
        let ghost ix0 = self@;
        let mut keys: Vec<Vec<DataType>> = Vec::new();
        let mut freed: u64 = 0;
        let mut n: usize = 0;
        while n < count && self.entries.len() > 0
            invariant
                index_wf(self@),
                self@.key_cols == ix0.key_cols,
                self@.partial == ix0.partial,
                0 <= n <= count,
                keys.len() == n,
                self@.entries.len() == ix0.entries.len() - n,
                n <= ix0.entries.len(),
                entries_bytes(self@.entries) <= entries_bytes(ix0.entries),
                freed == sat64(
                    (entries_bytes(ix0.entries) - entries_bytes(self@.entries)) as nat,
                ),
                forall|j: int|
                    0 <= j < keys.len() ==> key_of_some_entry(
                        ix0.entries,
                        #[trigger] keys.deep_view()[j],
                    ),
                forall|j: int|
                    0 <= j < self@.entries.len() ==> entry_of(
                        ix0.entries,
                        #[trigger] self@.entries[j],
                    ),
            decreases count - n,
        {
            let ridx = crate::rng::random_below(self.entries.len());
            let ghost cur = self@;
            let entry = self.entries.remove(ridx);
            let b = Self::entry_size(&entry);
            freed = freed.saturating_add(b);
            proof {
                assert(entry@ == cur.entries[ridx as int]);
                assert(self@.entries =~= cur.entries.remove(ridx as int));
                lemma_entries_bytes_remove(cur.entries, ridx as int);
                assert(entries_bytes(self@.entries) + entry_bytes(entry@) == entries_bytes(
                    cur.entries,
                ));
                assert forall|j: int| 0 <= j < self@.entries.len() implies entry_of(
                    ix0.entries,
                    #[trigger] self@.entries[j],
                ) by {
                    if j < ridx as int {
                        assert(self@.entries[j] == cur.entries[j]);
                    } else {
                        assert(self@.entries[j] == cur.entries[j + 1]);
                    }
                }
                lemma_remove_entry_wf(cur, ridx as int);
            }
            let ghost kd0 = keys.deep_view();
            keys.push(entry.key);
            proof {
                let ghost kd = keys.deep_view();
                assert forall|j: int| 0 <= j < keys.len() implies key_of_some_entry(
                    ix0.entries,
                    #[trigger] kd[j],
                ) by {
                    if j == keys.len() - 1 {
                        assert(kd[j] == entry@.key);
                        assert(entry_of(ix0.entries, cur.entries[ridx as int]));
                        let i0 = choose|i: int|
                            0 <= i < ix0.entries.len() && cur.entries[ridx as int] == (
                            #[trigger] ix0.entries[i]);
                        assert(kd[j] == ix0.entries[i0].key);
                    } else {
                        assert(kd[j] == keys@[j].deep_view());
                        assert(kd[j] == kd0[j]);
                    }
                }
            }
            n = n + 1;
        }
        (freed, keys)
    }

    /// Drop every entry; the key-column set and the partial flag survive.
    pub fn clear(&mut self)
        ensures
            final(self)@ == (IndexModel {
                key_cols: old(self)@.key_cols,
                partial: old(self)@.partial,
                entries: Seq::empty(),
            }),
            index_wf(final(self)@),
    {
        self.entries.clear();
        proof {
            assert(self@.entries =~= Seq::<EntryModel>::empty());
        }
    }
}

} // verus!
