//! Columns of a composite key: typed values with a validity per row, and the
//! order that one column puts on two of its rows.
use std::cmp::Ordering;
use vstd::prelude::*;

verus! {

/// One column of values, all of one type, where `None` marks a null row.
/// Narrower integers, dates and times fit in `Int64`, decimals in `Int128`,
/// and strings (by their UTF-8 bytes) and binary values in `Bytes`.
#[derive(Clone, Debug)]
pub enum Column {
    Int64(Vec<Option<i64>>),
    UInt64(Vec<Option<u64>>),
    Int128(Vec<Option<i128>>),
    Boolean(Vec<Option<bool>>),
    Bytes(Vec<Option<Vec<u8>>>),
}

/// What one non-null row of a column holds.
pub enum Value {
    Int(int),
    Bytes(Seq<u8>),
}

/// Sort direction and null placement of one key column.
#[derive(Clone, Copy, Debug, PartialEq, Eq, Structural)]
pub struct SortSpec {
    pub descending: bool,
    pub nulls_first: bool,
}

/// A column together with the way it was sorted. `None` stands for the
/// default: ascending, nulls last.
#[derive(Clone, Debug)]
pub struct SortColumn {
    pub values: Column,
    pub options: Option<SortSpec>,
}

/// The order of two integers.
pub open spec fn int_cmp(a: int, b: int) -> Ordering {
    if a < b {
        Ordering::Less
    } else if a > b {
        Ordering::Greater
    } else {
        Ordering::Equal
    }
}

/// Lexicographic order of two byte strings, a proper prefix first; this is
/// the order of byte slices, and of strings by their UTF-8 bytes.
pub open spec fn bytes_cmp(a: Seq<u8>, b: Seq<u8>) -> Ordering
    decreases a.len(),
{
    if a.len() == 0 {
        if b.len() == 0 {
            Ordering::Equal
        } else {
            Ordering::Less
        }
    } else if b.len() == 0 {
        Ordering::Greater
    } else if a[0] < b[0] {
        Ordering::Less
    } else if a[0] > b[0] {
        Ordering::Greater
    } else {
        bytes_cmp(a.drop_first(), b.drop_first())
    }
}

/// The order of two values. A column holds values of one kind only; across
/// kinds integers come first.
pub open spec fn value_cmp(a: Value, b: Value) -> Ordering {
    match (a, b) {
        (Value::Int(x), Value::Int(y)) => int_cmp(x, y),
        (Value::Bytes(x), Value::Bytes(y)) => bytes_cmp(x, y),
        (Value::Int(_), Value::Bytes(_)) => Ordering::Less,
        (Value::Bytes(_), Value::Int(_)) => Ordering::Greater,
    }
}

/// Byte strings compare `Equal` exactly when they are the same.
pub proof fn lemma_bytes_cmp_equal(a: Seq<u8>, b: Seq<u8>)
    ensures
        (bytes_cmp(a, b) == Ordering::Equal) == (a == b),
    decreases a.len(),
{
    if a.len() == 0 && b.len() == 0 {
        assert(a =~= b);
    }
    if a.len() > 0 && b.len() > 0 && a[0] == b[0] {
        lemma_bytes_cmp_equal(a.drop_first(), b.drop_first());
        if a.drop_first() == b.drop_first() {
            assert(a =~= b) by {
                assert forall|k: int| 0 <= k < a.len() implies a[k] == b[k] by {
                    if k > 0 {
                        assert(a[k] == a.drop_first()[k - 1]);
                    }
                }
            }
        }
    }
}

/// Values compare `Equal` exactly when they are the same.
pub proof fn lemma_value_cmp_equal(a: Value, b: Value)
    ensures
        (value_cmp(a, b) == Ordering::Equal) == (a == b),
{
    match (a, b) {
        (Value::Bytes(x), Value::Bytes(y)) => lemma_bytes_cmp_equal(x, y),
        _ => {},
    }
}

/// The opposite order; `Equal` stays `Equal`.
pub open spec fn reversed(o: Ordering) -> Ordering {
    match o {
        Ordering::Less => Ordering::Greater,
        Ordering::Greater => Ordering::Less,
        Ordering::Equal => Ordering::Equal,
    }
}

/// The default sort: ascending, nulls last.
pub open spec fn default_spec() -> SortSpec {
    SortSpec { descending: false, nulls_first: false }
}

/// The sort that a column's options stand for.
pub open spec fn options_of(c: SortColumn) -> SortSpec {
    match c.options {
        Some(o) => o,
        None => default_spec(),
    }
}

/// How one column orders row `i` against row `j`: values by `value_cmp`
/// (reversed when descending), a null before or after every value as
/// `nulls_first` says whatever the direction, and two nulls as equal.
pub open spec fn column_cmp(c: Column, o: SortSpec, i: int, j: int) -> Ordering {
    match (c.cell(i), c.cell(j)) {
        (Some(a), Some(b)) => if o.descending {
            reversed(value_cmp(a, b))
        } else {
            value_cmp(a, b)
        },
        (None, Some(_)) => if o.nulls_first {
            Ordering::Less
        } else {
            Ordering::Greater
        },
        (Some(_), None) => if o.nulls_first {
            Ordering::Greater
        } else {
            Ordering::Less
        },
        (None, None) => Ordering::Equal,
    }
}

/// Under `nulls_first` a null row comes before a row with a value, and the
/// direction of the column does not change that.
pub proof fn lemma_nulls_first_ignores_direction(c: Column, descending: bool, i: int, j: int)
    requires
        c.cell(i) is None,
        c.cell(j) is Some,
    ensures
        column_cmp(c, SortSpec { descending, nulls_first: true }, i, j) == Ordering::Less,
        column_cmp(c, SortSpec { descending: !descending, nulls_first: true }, i, j)
            == Ordering::Less,
        column_cmp(c, SortSpec { descending, nulls_first: false }, i, j) == Ordering::Greater,
        column_cmp(c, SortSpec { descending: !descending, nulls_first: false }, i, j)
            == Ordering::Greater,
{
}

/// A column finds two rows `Equal` exactly when they hold the same, both
/// the same value or both null.
pub proof fn lemma_column_cmp_equal(c: Column, o: SortSpec, i: int, j: int)
    ensures
        (column_cmp(c, o, i, j) == Ordering::Equal) == (c.cell(i) == c.cell(j)),
{
    if let (Some(a), Some(b)) = (c.cell(i), c.cell(j)) {
        lemma_value_cmp_equal(a, b);
    }
}

impl Default for SortSpec {
    fn default() -> (r: SortSpec)
        ensures
            r == default_spec(),
    {
        SortSpec { descending: false, nulls_first: false }
    }
}

/// Compares two byte strings in lexicographic order.
pub fn compare_bytes(a: &Vec<u8>, b: &Vec<u8>) -> (r: Ordering)
    ensures
        r == bytes_cmp(a@, b@),
{
    let mut k: usize = 0;
    assert(a@.subrange(0, a@.len() as int) =~= a@);
    assert(b@.subrange(0, b@.len() as int) =~= b@);
    while k < a.len() && k < b.len()
        invariant
            k <= a@.len(),
            k <= b@.len(),
            bytes_cmp(a@, b@) == bytes_cmp(
                a@.subrange(k as int, a@.len() as int),
                b@.subrange(k as int, b@.len() as int),
            ),
        decreases a@.len() - k,
    {
        let ghost ra = a@.subrange(k as int, a@.len() as int);
        let ghost rb = b@.subrange(k as int, b@.len() as int);
        assert(ra.drop_first() =~= a@.subrange(k + 1, a@.len() as int));
        assert(rb.drop_first() =~= b@.subrange(k + 1, b@.len() as int));
        assert(ra[0] == a@[k as int] && rb[0] == b@[k as int]);
        if a[k] < b[k] {
            return Ordering::Less;
        } else if a[k] > b[k] {
            return Ordering::Greater;
        }
        k = k + 1;
    }
    if k < a.len() {
        Ordering::Greater
    } else if k < b.len() {
        Ordering::Less
    } else {
        Ordering::Equal
    }
}

impl Column {
    /// Number of rows.
    pub open spec fn spec_len(&self) -> nat {
        match self {
            Column::Int64(v) => v@.len(),
            Column::UInt64(v) => v@.len(),
            Column::Int128(v) => v@.len(),
            Column::Boolean(v) => v@.len(),
            Column::Bytes(v) => v@.len(),
        }
    }

    /// What row `i` holds, `None` where it is null. Booleans are the
    /// integers 0 (`false`) and 1 (`true`).
    pub open spec fn cell(&self, i: int) -> Option<Value> {
        match self {
            Column::Int64(v) => match v@[i] {
                Some(x) => Some(Value::Int(x as int)),
                None => None,
            },
            Column::UInt64(v) => match v@[i] {
                Some(x) => Some(Value::Int(x as int)),
                None => None,
            },
            Column::Int128(v) => match v@[i] {
                Some(x) => Some(Value::Int(x as int)),
                None => None,
            },
            Column::Boolean(v) => match v@[i] {
                Some(x) => Some(Value::Int(if x { 1int } else { 0int })),
                None => None,
            },
            Column::Bytes(v) => match v@[i] {
                Some(x) => Some(Value::Bytes(x@)),
                None => None,
            },
        }
    }

    pub fn len(&self) -> (r: usize)
        ensures
            r == self.spec_len(),
    {
        match self {
            Column::Int64(v) => v.len(),
            Column::UInt64(v) => v.len(),
            Column::Int128(v) => v.len(),
            Column::Boolean(v) => v.len(),
            Column::Bytes(v) => v.len(),
        }
    }

    /// Whether row `i` holds a value.
    pub fn is_valid(&self, i: usize) -> (r: bool)
        requires
            i < self.spec_len(),
        ensures
            r == self.cell(i as int).is_some(),
    {
        match self {
            Column::Int64(v) => v[i].is_some(),
            Column::UInt64(v) => v[i].is_some(),
            Column::Int128(v) => v[i].is_some(),
            Column::Boolean(v) => v[i].is_some(),
            Column::Bytes(v) => v[i].is_some(),
        }
    }

    /// The order of the values at two rows that both hold one.
    pub fn compare_raw(&self, i: usize, j: usize) -> (r: Ordering)
        requires
            i < self.spec_len(),
            j < self.spec_len(),
            self.cell(i as int).is_some(),
            self.cell(j as int).is_some(),
        ensures
            r == value_cmp(self.cell(i as int).unwrap(), self.cell(j as int).unwrap()),
    {
        match self {
            Column::Int64(v) => {
                let a = v[i].unwrap();
                let b = v[j].unwrap();
                if a < b {
                    Ordering::Less
                } else if a > b {
                    Ordering::Greater
                } else {
                    Ordering::Equal
                }
            },
            Column::UInt64(v) => {
                let a = v[i].unwrap();
                let b = v[j].unwrap();
                if a < b {
                    Ordering::Less
                } else if a > b {
                    Ordering::Greater
                } else {
                    Ordering::Equal
                }
            },
            Column::Int128(v) => {
                let a = v[i].unwrap();
                let b = v[j].unwrap();
                if a < b {
                    Ordering::Less
                } else if a > b {
                    Ordering::Greater
                } else {
                    Ordering::Equal
                }
            },
            Column::Bytes(v) => match (&v[i], &v[j]) {
                (Some(a), Some(b)) => compare_bytes(a, b),
                _ => Ordering::Equal,
            },
            Column::Boolean(v) => {
                let a = v[i].unwrap();
                let b = v[j].unwrap();
                if a == b {
                    Ordering::Equal
                } else if b {
                    Ordering::Less
                } else {
                    Ordering::Greater
                }
            },
        }
    }
}

} // verus!
