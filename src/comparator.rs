//! A lexicographic comparator over the rows of several columns.
use crate::column::{column_cmp, lemma_column_cmp_equal, options_of, Column, SortColumn, SortSpec};
use std::cmp::Ordering;
use vstd::prelude::*;

verus! {

/// Why a composite key could not be built.
#[derive(Clone, Copy, Debug, PartialEq, Eq, Structural)]
pub enum KeyRangeError {
    /// The key has no column.
    EmptyKey,
    /// The columns do not all have the same number of rows.
    RowCountMismatch,
}

/// The key that a list of sort columns stands for, most significant first.
pub open spec fn key_of(columns: Seq<SortColumn>) -> Seq<(Column, SortSpec)> {
    columns.map_values(|c: SortColumn| (c.values, options_of(c)))
}

/// Lexicographic order of rows `i` and `j` under `key`: the first column that
/// does not find them equal decides.
pub open spec fn key_cmp(key: Seq<(Column, SortSpec)>, i: int, j: int) -> Ordering
    decreases key.len(),
{
    if key.len() == 0 {
        Ordering::Equal
    } else {
        let c = column_cmp(key[0].0, key[0].1, i, j);
        if c == Ordering::Equal {
            key_cmp(key.drop_first(), i, j)
        } else {
            c
        }
    }
}

/// Whether rows `i` and `j` hold the same thing in every column of `key`
/// (both the same value, or both null).
pub open spec fn rows_equal(key: Seq<(Column, SortSpec)>, i: int, j: int) -> bool {
    forall|c: int| 0 <= c < key.len() ==> (#[trigger] key[c]).0.cell(i) == key[c].0.cell(j)
}

/// Whether every column of `key` has `n` rows.
pub open spec fn all_len(key: Seq<(Column, SortSpec)>, n: nat) -> bool {
    forall|c: int| 0 <= c < key.len() ==> #[trigger] key[c].0.spec_len() == n
}

/// Checks the row counts of a key's columns, most significant first: a key
/// needs at least one column, and all of them the same number of rows.
pub fn check_row_counts(row_counts: &[usize]) -> (r: Result<(), KeyRangeError>)
    ensures
        row_counts@.len() == 0 <==> r == Err::<(), KeyRangeError>(KeyRangeError::EmptyKey),
        r == Err::<(), KeyRangeError>(KeyRangeError::RowCountMismatch) <==> (row_counts@.len() > 0
            && exists|c: int| 0 <= c < row_counts@.len() && #[trigger] row_counts@[c] != row_counts@[0]),
        r is Ok <==> (row_counts@.len() > 0 && forall|c: int|
            0 <= c < row_counts@.len() ==> #[trigger] row_counts@[c] == row_counts@[0]),
{
    if row_counts.len() == 0 {
        return Err(KeyRangeError::EmptyKey);
    }
    let first = row_counts[0];
    let mut k: usize = 0;
    while k < row_counts.len()
        invariant
            0 < row_counts@.len(),
            first == row_counts@[0],
            0 <= k <= row_counts@.len(),
            forall|c: int| 0 <= c < k ==> #[trigger] row_counts@[c] == first,
        decreases row_counts@.len() - k,
    {
        if row_counts[k] != first {
            return Err(KeyRangeError::RowCountMismatch);
        }
        k = k + 1;
    }
    Ok(())
}

/// Rows compare `Equal` exactly when they agree in every column.
pub proof fn lemma_equal_iff_rows_equal(key: Seq<(Column, SortSpec)>, i: int, j: int)
    ensures
        (key_cmp(key, i, j) == Ordering::Equal) == rows_equal(key, i, j),
    decreases key.len(),
{
    if key.len() > 0 {
        let rest = key.drop_first();
        lemma_equal_iff_rows_equal(rest, i, j);
        lemma_column_cmp_equal(key[0].0, key[0].1, i, j);
        assert forall|c: int| 0 <= c < rest.len() implies rest[c] == key[c + 1] by {}
        if rows_equal(key, i, j) {
            assert(key[0].0.cell(i) == key[0].0.cell(j));
            assert(rows_equal(rest, i, j)) by {
                assert forall|c: int| 0 <= c < rest.len() implies
                    #[trigger] rest[c].0.cell(i) == rest[c].0.cell(j) by {
                    assert(key[c + 1].0.cell(i) == key[c + 1].0.cell(j));
                }
            }
        }
        if key_cmp(key, i, j) == Ordering::Equal {
            assert(rows_equal(key, i, j)) by {
                assert forall|c: int| 0 <= c < key.len() implies
                    #[trigger] key[c].0.cell(i) == key[c].0.cell(j) by {
                    if c > 0 {
                        assert(rest[c - 1].0.cell(i) == rest[c - 1].0.cell(j));
                    }
                }
            }
        }
    }
}

/// Under `nulls_first` the key puts a row whose leading column is null
/// before a row whose leading column holds a value, in either direction.
pub proof fn lemma_leading_null_first(key: Seq<(Column, SortSpec)>, i: int, j: int)
    requires
        key.len() > 0,
        key[0].1.nulls_first,
        key[0].0.cell(i) is None,
        key[0].0.cell(j) is Some,
    ensures
        key_cmp(key, i, j) == Ordering::Less,
        key_cmp(
            key.update(
                0,
                (key[0].0, SortSpec { descending: !key[0].1.descending, nulls_first: true }),
            ),
            i,
            j,
        ) == Ordering::Less,
{
    let o = SortSpec { descending: !key[0].1.descending, nulls_first: true };
    assert(key.update(0, (key[0].0, o))[0] == (key[0].0, o));
}

/// A column and the sort that applies to it, ready for comparison.
struct CompareItem<'a> {
    column: &'a Column,
    options: SortSpec,
}

/// Compares rows of a borrowed composite key by index.
pub struct KeyRangeComparator<'a> {
    compare_items: Vec<CompareItem<'a>>,
    num_rows: usize,
}

impl<'a> KeyRangeComparator<'a> {
    /// The key compared by, most significant column first.
    pub closed spec fn key(&self) -> Seq<(Column, SortSpec)> {
        self.compare_items@.map_values(|it: CompareItem<'a>| (*it.column, it.options))
    }

    /// The number of rows that every column has.
    pub closed spec fn rows(&self) -> nat {
        self.num_rows as nat
    }

    pub closed spec fn wf(&self) -> bool {
        &&& self.key().len() > 0
        &&& all_len(self.key(), self.rows())
    }

    pub fn num_rows(&self) -> (r: usize)
        ensures
            r == self.rows(),
    {
        self.num_rows
    }

    /// Compares rows `a_idx` and `b_idx` column by column, in key order.
    pub fn compare(&self, a_idx: &usize, b_idx: &usize) -> (r: Ordering)
        requires
            self.wf(),
            *a_idx < self.rows(),
            *b_idx < self.rows(),
        ensures
            r == key_cmp(self.key(), *a_idx as int, *b_idx as int),
    {
        let a = *a_idx;
        let b = *b_idx;
        let ghost key = self.key();
        let mut k: usize = 0;
        assert(key.subrange(0, key.len() as int) =~= key);
        while k < self.compare_items.len()
            invariant
                self.wf(),
                a == *a_idx,
                b == *b_idx,
                a < self.rows(),
                b < self.rows(),
                key == self.key(),
                key.len() == self.compare_items@.len(),
                0 <= k <= key.len(),
                key_cmp(key, a as int, b as int) == key_cmp(
                    key.subrange(k as int, key.len() as int),
                    a as int,
                    b as int,
                ),
            decreases key.len() - k,
        {
            let item = &self.compare_items[k];
            let column = item.column;
            let options = item.options;
            let ghost rest = key.subrange(k as int, key.len() as int);
            assert(rest[0] == key[k as int]);
            assert(key[k as int] == (*column, options));
            assert(rest.drop_first() =~= key.subrange(k + 1, key.len() as int));
            assert(key[k as int].0.spec_len() == self.rows());
            let c = match (column.is_valid(a), column.is_valid(b)) {
                (true, true) => {
                    let raw = column.compare_raw(a, b);
                    if options.descending {
                        match raw {
                            Ordering::Less => Ordering::Greater,
                            Ordering::Greater => Ordering::Less,
                            Ordering::Equal => Ordering::Equal,
                        }
                    } else {
                        raw
                    }
                },
                (false, true) => if options.nulls_first {
                    Ordering::Less
                } else {
                    Ordering::Greater
                },
                (true, false) => if options.nulls_first {
                    Ordering::Greater
                } else {
                    Ordering::Less
                },
                (false, false) => Ordering::Equal,
            };
            assert(c == column_cmp(*column, options, a as int, b as int));
            assert(key_cmp(rest, a as int, b as int) == if c == Ordering::Equal {
                key_cmp(rest.drop_first(), a as int, b as int)
            } else {
                c
            });
            match c {
                Ordering::Equal => {},
                _ => {
                    return c;
                },
            }
            k = k + 1;
        }
        assert(key.subrange(k as int, key.len() as int).len() == 0);
        Ordering::Equal
    }

    /// Builds the comparator for `columns`, most significant first. Fails on
    /// an empty list, or where the columns differ in length.
    pub fn try_new(columns: &'a [SortColumn]) -> (r: Result<KeyRangeComparator<'a>, KeyRangeError>)
        ensures
            columns@.len() == 0 <==> r == Err::<KeyRangeComparator<'a>, KeyRangeError>(
                KeyRangeError::EmptyKey,
            ),
            r == Err::<KeyRangeComparator<'a>, KeyRangeError>(KeyRangeError::RowCountMismatch)
                <==> (columns@.len() > 0 && exists|c: int|
                0 <= c < columns@.len() && #[trigger] columns@[c].values.spec_len()
                    != columns@[0].values.spec_len()),
            r is Ok <==> (columns@.len() > 0 && forall|c: int|
                0 <= c < columns@.len() ==> #[trigger] columns@[c].values.spec_len()
                    == columns@[0].values.spec_len()),
            r is Ok ==> {
                &&& r->Ok_0.wf()
                &&& r->Ok_0.key() == key_of(columns@)
                &&& r->Ok_0.rows() == columns@[0].values.spec_len()
            },
    {
        let mut row_counts: Vec<usize> = Vec::new();
        let mut k: usize = 0;
        while k < columns.len()
            invariant
                0 <= k <= columns@.len(),
                row_counts@.len() == k,
                forall|c: int|
                    0 <= c < k ==> #[trigger] row_counts@[c] == columns@[c].values.spec_len(),
            decreases columns@.len() - k,
        {
            row_counts.push(columns[k].values.len());
            k = k + 1;
        }
        let checked = check_row_counts(row_counts.as_slice());
        if let Err(e) = checked {
            if e == KeyRangeError::RowCountMismatch {
                let ghost c = choose|c: int|
                    0 <= c < row_counts@.len() && #[trigger] row_counts@[c] != row_counts@[0];
                assert(columns@[c].values.spec_len() != columns@[0].values.spec_len());
            }
            return Err(e);
        }
        assert forall|c: int| 0 <= c < columns@.len() implies #[trigger] columns@[c].values.spec_len()
            == columns@[0].values.spec_len() by {
            assert(row_counts@[c] == row_counts@[0]);
        }
        let num_rows = row_counts[0];
        let mut compare_items: Vec<CompareItem<'a>> = Vec::new();
        let mut k: usize = 0;
        while k < columns.len()
            invariant
                0 < columns@.len(),
                0 <= k <= columns@.len(),
                num_rows == columns@[0].values.spec_len(),
                compare_items@.len() == k,
                forall|c: int| 0 <= c < k ==> (#[trigger] compare_items@[c]).column == &columns@[c].values
                    && compare_items@[c].options == options_of(columns@[c]),
            decreases columns@.len() - k,
        {
            let column = &columns[k];
            let options = match column.options {
                Some(o) => o,
                None => SortSpec::default(),
            };
            compare_items.push(CompareItem { column: &column.values, options });
            k = k + 1;
        }
        let r = KeyRangeComparator { compare_items, num_rows };
        assert(r.key() =~= key_of(columns@));
        Ok(r)
    }
}

} // verus!
