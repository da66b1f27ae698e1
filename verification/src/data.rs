//! Scalar values, rows, records and the spec-level models they are read as.
//!
//! A row is an ordered sequence of scalar values; an index keys rows by the
//! projection of the row onto the index's key columns.  All contracts in this
//! crate speak about rows through `DataValue` sequences (the mathematical
//! reading of a row), never about the executable representation directly.

use vstd::prelude::*;
use vstd::string::StrSliceExecFns;

verus! {

/// One scalar column value: an opaque, comparable unit of column data.
#[derive(Debug)]
pub enum DataType {
    Int(i64),
    Text(String),
}

/// The mathematical value of one scalar, as the contracts read it.
pub ghost enum DataValue {
    Int(int),
    Text(Seq<char>),
}

impl View for DataType {
    type V = DataValue;

    open spec fn view(&self) -> DataValue {
        match self {
            DataType::Int(i) => DataValue::Int(*i as int),
            DataType::Text(s) => DataValue::Text(s@),
        }
    }
}

impl DeepView for DataType {
    type V = DataValue;

    open spec fn deep_view(&self) -> DataValue {
        self.view()
    }
}

impl PartialEq for DataType {
    fn eq(&self, other: &DataType) -> (r: bool) {
        match (self, other) {
            (DataType::Int(a), DataType::Int(b)) => *a == *b,
            (DataType::Text(a), DataType::Text(b)) => *a == *b,
            (DataType::Int(_), DataType::Text(_)) => false,
            (DataType::Text(_), DataType::Int(_)) => false,
        }
    }
}

impl vstd::std_specs::cmp::PartialEqSpecImpl for DataType {
    open spec fn obeys_eq_spec() -> bool {
        true
    }

    open spec fn eq_spec(&self, other: &DataType) -> bool {
        self@ == other@
    }
}

impl Clone for DataType {
    fn clone(&self) -> (r: DataType)
        ensures
            r@ == self@,
    {
        match self {
            DataType::Int(i) => DataType::Int(*i),
            DataType::Text(s) => DataType::Text(s.clone()),
        }
    }
}

/// An opaque identifier naming one partial-replay path.
#[derive(Clone, Copy, PartialEq, Eq, Structural, Debug)]
pub struct Tag(pub u32);

/// A logical timestamp attached to every mutation; the store only threads it
/// through to the per-index version bookkeeping.
pub type Timestamp = u64;

/// One element of a mutation batch: a row to insert or a row to delete.
#[derive(Debug)]
pub enum Record {
    Positive(Vec<DataType>),
    Negative(Vec<DataType>),
}

/// The mathematical reading of a record.
pub ghost struct RecordModel {
    pub positive: bool,
    pub row: Seq<DataValue>,
}

impl View for Record {
    type V = RecordModel;

    open spec fn view(&self) -> RecordModel {
        match self {
            Record::Positive(r) => RecordModel { positive: true, row: r.deep_view() },
            Record::Negative(r) => RecordModel { positive: false, row: r.deep_view() },
        }
    }
}

impl DeepView for Record {
    type V = RecordModel;

    open spec fn deep_view(&self) -> RecordModel {
        self.view()
    }
}

impl Record {
    /// The row values the record carries, whichever sign it has.
    pub fn row(&self) -> (r: &Vec<DataType>)
        ensures
            r.deep_view() == self@.row,
    {
        match self {
            Record::Positive(r) => r,
            Record::Negative(r) => r,
        }
    }

    pub fn is_positive(&self) -> (r: bool)
        ensures
            r == self@.positive,
    {
        match self {
            Record::Positive(_) => true,
            Record::Negative(_) => false,
        }
    }
}

/// The outcome of a point lookup: `Missing` marks a hole in a partial index,
/// `Found` carries the matching rows (possibly none).
#[derive(Debug)]
pub enum LookupResult {
    Found(Vec<Vec<DataType>>),
    Missing,
}

/// Fixed bookkeeping overhead charged per stored row version.
pub const VERSIONED_ROW_HEADER_SIZE: u64 = 16;

/// Fixed size attributed to one scalar value besides its text payload.
pub const SCALAR_BASE_SIZE: u64 = 16;

/// Approximate size in bytes of one scalar value, clamped at `u64::MAX`.
pub open spec fn value_size(v: DataValue) -> nat {
    match v {
        DataValue::Int(_) => SCALAR_BASE_SIZE as nat,
        DataValue::Text(s) => if SCALAR_BASE_SIZE as nat + s.len() <= u64::MAX as nat {
            SCALAR_BASE_SIZE as nat + s.len()
        } else {
            u64::MAX as nat
        },
    }
}

/// Approximate payload size in bytes of one row: the sum of its scalars' sizes.
pub open spec fn row_size(r: Seq<DataValue>) -> nat
    decreases r.len(),
{
    if r.len() == 0 {
        0
    } else {
        row_size(r.drop_last()) + value_size(r.last())
    }
}

/// Clamp a mathematical byte count into a `u64`.
pub open spec fn sat64(n: nat) -> u64 {
    if n <= u64::MAX {
        n as u64
    } else {
        u64::MAX
    }
}

/// Clamp a mathematical count into a `usize`.
pub open spec fn sat_usize(n: nat) -> usize {
    if n <= usize::MAX {
        n as usize
    } else {
        usize::MAX
    }
}

/// The projection of a row onto an index's key columns, in column-set order.
pub open spec fn project(row: Seq<DataValue>, cols: Seq<usize>) -> Seq<DataValue> {
    Seq::new(cols.len(), |i: int| row[cols[i] as int])
}

/// Whether every key column names a position the row actually has.
pub open spec fn covers(row: Seq<DataValue>, cols: Seq<usize>) -> bool {
    forall|i: int| 0 <= i < cols.len() ==> (#[trigger] cols[i]) < row.len()
}

impl DataType {
    /// Approximate size in bytes of this scalar.
    pub fn size_bytes(&self) -> (r: u64)
        ensures
            r as nat == value_size(self@),
    {
        match self {
            DataType::Int(_) => SCALAR_BASE_SIZE,
            DataType::Text(s) => {
                let l = s.as_str().unicode_len();
                SCALAR_BASE_SIZE.saturating_add(l as u64)
            },
        }
    }
}

/// Approximate payload size in bytes of a row, clamped at `u64::MAX`.
pub fn row_size_bytes(r: &Vec<DataType>) -> (n: u64)
    ensures
        n == sat64(row_size(r.deep_view())),
{
    let mut acc: u64 = 0;
    let mut i: usize = 0;
    while i < r.len()
        invariant
            0 <= i <= r.len(),
            acc == sat64(row_size(r.deep_view().take(i as int))),
        decreases r.len() - i,
    {
        let v = r[i].size_bytes();
        proof {
            assert(r.deep_view().take(i + 1).drop_last() =~= r.deep_view().take(i as int));
            assert(r.deep_view().take(i + 1).last() == r.deep_view()[i as int]);
        }
        acc = acc.saturating_add(v);
        i = i + 1;
    }
    proof {
        assert(r.deep_view().take(r.len() as int) =~= r.deep_view());
    }
    acc
}

/// A fresh row holding the same scalar values.
pub fn clone_row(r: &Vec<DataType>) -> (c: Vec<DataType>)
    ensures
        c.deep_view() == r.deep_view(),
{
    let mut c: Vec<DataType> = Vec::new();
    let mut i: usize = 0;
    while i < r.len()
        invariant
            0 <= i <= r.len(),
            c.len() == i,
            forall|j: int| 0 <= j < i ==> c.deep_view()[j] == r.deep_view()[j],
        decreases r.len() - i,
    {
        c.push(r[i].clone());
        i = i + 1;
    }
    proof {
        assert(c.deep_view() =~= r.deep_view());
    }
    c
}

/// Whether two rows carry the same scalar values.
pub fn rows_equal(a: &Vec<DataType>, b: &Vec<DataType>) -> (r: bool)
    ensures
        r == (a.deep_view() == b.deep_view()),
{
    if a.len() != b.len() {
        proof {
            assert(a.deep_view().len() == a.len());
            assert(b.deep_view().len() == b.len());
        }
        return false;
    }
    let mut i: usize = 0;
    while i < a.len()
        invariant
            0 <= i <= a.len(),
            a.len() == b.len(),
            forall|j: int| 0 <= j < i ==> a.deep_view()[j] == b.deep_view()[j],
        decreases a.len() - i,
    {
        if !(a[i] == b[i]) {
            proof {
                assert(a.deep_view()[i as int] != b.deep_view()[i as int]);
            }
            return false;
        }
        i = i + 1;
    }
    proof {
        assert(a.deep_view() =~= b.deep_view());
    }
    true
}

/// The projection of a row onto key columns, as a fresh row.
pub fn project_row(row: &Vec<DataType>, cols: &Vec<usize>) -> (k: Vec<DataType>)
    requires
        covers(row.deep_view(), cols@),
    ensures
        k.deep_view() == project(row.deep_view(), cols@),
{
    let mut k: Vec<DataType> = Vec::new();
    let mut i: usize = 0;
    while i < cols.len()
        invariant
            0 <= i <= cols.len(),
            covers(row.deep_view(), cols@),
            k.len() == i,
            forall|j: int| 0 <= j < i ==> k.deep_view()[j] == project(row.deep_view(), cols@)[j],
        decreases cols.len() - i,
    {
        let ghost k0 = k.deep_view();
        let c = cols[i];
        k.push(row[c].clone());
        proof {
            assert forall|j: int| 0 <= j <= i as int implies k.deep_view()[j] == project(
                row.deep_view(),
                cols@,
            )[j] by {
                if j < i as int {
                    assert(k@[j] == k@.drop_last()[j]);
                    assert(k.deep_view()[j] == k0[j]);
                } else {
                    assert(k.deep_view()[j] == row.deep_view()[c as int]);
                }
            }
        }
        i = i + 1;
    }
    proof {
        assert(k.deep_view() =~= project(row.deep_view(), cols@));
    }
    k
}

} // verus!
