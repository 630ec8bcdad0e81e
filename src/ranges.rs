//! Splits the rows of a sorted composite key into runs of equal keys.
use crate::column::{Column, SortColumn, SortSpec};
use crate::comparator::{
    key_cmp, key_of, lemma_equal_iff_rows_equal, rows_equal, KeyRangeComparator, KeyRangeError,
};
use std::cmp::Ordering;
use std::ops::Range;
use vstd::prelude::*;

verus! {

/// Whether rows `[s, e)` are a run of `key` among `n` rows: a non-empty
/// stretch whose rows all equal its first, ended by the last row or by a
/// row that differs from the first.
pub open spec fn is_run(key: Seq<(Column, SortSpec)>, n: int, s: int, e: int) -> bool {
    &&& 0 <= s < e <= n
    &&& forall|k: int| s <= k < e ==> #[trigger] key_cmp(key, s, k) == Ordering::Equal
    &&& e < n ==> key_cmp(key, s, e) != Ordering::Equal
}

/// Whether `ranges` cut `[start, end)` into non-empty pieces that follow one
/// another in order, each beginning where the one before it ends.
pub open spec fn tiles(ranges: Seq<Range<usize>>, start: int, end: int) -> bool {
    &&& ranges.len() == 0 <==> start == end
    &&& ranges.len() > 0 ==> ranges[0].start == start && ranges.last().end == end
    &&& forall|k: int| 0 <= k < ranges.len() ==> #[trigger] ranges[k].start < ranges[k].end
    &&& forall|k: int|
        0 <= k < ranges.len() - 1 ==> #[trigger] ranges[k].end == ranges[k + 1].start
}

/// Whether every two rows of `r` compare `Equal` under `key`.
pub open spec fn uniform(key: Seq<(Column, SortSpec)>, r: Range<usize>) -> bool {
    forall|i: int, j: int|
        r.start <= i < r.end && r.start <= j < r.end ==> #[trigger] key_cmp(key, i, j)
            == Ordering::Equal
}

/// Whether the last row of each range and the first row of the next one
/// compare other than `Equal` under `key`.
pub open spec fn neighbours_differ(key: Seq<(Column, SortSpec)>, ranges: Seq<Range<usize>>) -> bool {
    forall|k: int|
        0 <= k < ranges.len() - 1 ==> key_cmp(
            key,
            ranges[k].end - 1,
            #[trigger] ranges[k + 1].start as int,
        ) != Ordering::Equal
}

/// All rows of a run compare `Equal` with one another, and the row after a
/// run differs from the run's last row.
pub proof fn lemma_run(key: Seq<(Column, SortSpec)>, n: int, r: Range<usize>)
    requires
        is_run(key, n, r.start as int, r.end as int),
    ensures
        uniform(key, r),
        r.end < n ==> key_cmp(key, r.end - 1, r.end as int) != Ordering::Equal,
{
    let s = r.start as int;
    let e = r.end as int;
    assert forall|i: int, j: int| s <= i < e && s <= j < e implies #[trigger] key_cmp(key, i, j)
        == Ordering::Equal by {
        assert(key_cmp(key, s, i) == Ordering::Equal);
        assert(key_cmp(key, s, j) == Ordering::Equal);
        lemma_equal_iff_rows_equal(key, s, i);
        lemma_equal_iff_rows_equal(key, s, j);
        lemma_equal_iff_rows_equal(key, i, j);
    }
    if e < n {
        assert(key_cmp(key, s, e - 1) == Ordering::Equal);
        lemma_equal_iff_rows_equal(key, s, e - 1);
        lemma_equal_iff_rows_equal(key, s, e);
        lemma_equal_iff_rows_equal(key, e - 1, e);
    }
}

/// Whether row `i` lies in `r`.
pub open spec fn holds_row(r: Range<usize>, i: int) -> bool {
    r.start <= i < r.end
}

/// Whether row `i` lies in one of the first `m` ranges.
pub open spec fn covered(ranges: Seq<Range<usize>>, m: int, i: int) -> bool {
    exists|k: int| 0 <= k < m && #[trigger] holds_row(ranges[k], i)
}

proof fn lemma_tiles_ordered(ranges: Seq<Range<usize>>, start: int, end: int, k1: int, k2: int)
    requires
        tiles(ranges, start, end),
        0 <= k1 < k2 < ranges.len(),
    ensures
        ranges[k1].end <= ranges[k2].start,
    decreases k2 - k1,
{
    if k2 > k1 + 1 {
        lemma_tiles_ordered(ranges, start, end, k1, k2 - 1);
        assert(ranges[k2 - 1].start < ranges[k2 - 1].end);
        assert(ranges[k2 - 1].end == ranges[k2].start);
    } else {
        assert(ranges[k1].end == ranges[k1 + 1].start);
    }
}

proof fn lemma_tiles_cover(ranges: Seq<Range<usize>>, start: int, end: int, m: int)
    requires
        tiles(ranges, start, end),
        0 <= m < ranges.len(),
    ensures
        forall|i: int| start <= i < ranges[m].end ==> #[trigger] covered(ranges, m + 1, i),
    decreases m,
{
    if m > 0 {
        lemma_tiles_cover(ranges, start, end, m - 1);
        assert(ranges[m - 1].end == ranges[m].start);
        assert forall|i: int| start <= i < ranges[m].end implies #[trigger] covered(
            ranges,
            m + 1,
            i,
        ) by {
            if i >= ranges[m - 1].end {
                assert(holds_row(ranges[m], i));
            } else {
                assert(covered(ranges, m, i));
            }
        }
    } else {
        assert forall|i: int| start <= i < ranges[m].end implies #[trigger] covered(
            ranges,
            m + 1,
            i,
        ) by {
            assert(holds_row(ranges[0], i));
        }
    }
}

/// Ranges that tile `[start, end)` are a partition of it: each row of
/// `[start, end)` lies in one of them, none reaches outside it, and each
/// range ends at or before the start of every later one, so that no two
/// overlap and they come sorted by start.
pub proof fn lemma_tiles_partition(ranges: Seq<Range<usize>>, start: int, end: int)
    requires
        tiles(ranges, start, end),
    ensures
        forall|i: int| start <= i < end ==> #[trigger] covered(ranges, ranges.len() as int, i),
        forall|k: int|
            0 <= k < ranges.len() ==> start <= #[trigger] ranges[k].start && ranges[k].end <= end,
        forall|k1: int, k2: int|
            0 <= k1 < k2 < ranges.len() ==> #[trigger] ranges[k1].end <= #[trigger] ranges[k2].start,
{
    assert forall|k1: int, k2: int| 0 <= k1 < k2 < ranges.len() implies #[trigger] ranges[k1].end
        <= #[trigger] ranges[k2].start by {
        lemma_tiles_ordered(ranges, start, end, k1, k2);
    }
    if ranges.len() > 0 {
        let m = ranges.len() - 1;
        lemma_tiles_cover(ranges, start, end, m);
        assert forall|i: int| start <= i < end implies #[trigger] covered(
            ranges,
            ranges.len() as int,
            i,
        ) by {
            assert(covered(ranges, m + 1, i));
        }
        assert forall|k: int| 0 <= k < ranges.len() implies start <= #[trigger] ranges[k].start
            && ranges[k].end <= end by {
            if k > 0 {
                assert(ranges[0].end <= ranges[k].start);
            }
            if k < m {
                assert(ranges[k].end <= ranges[m].start);
            }
        }
    }
}

/// Where every two rows agree in every column, the runs over `n > 0` rows
/// are the single range `[0, n)`.
pub proof fn lemma_all_equal_one_range(
    key: Seq<(Column, SortSpec)>,
    n: int,
    ranges: Seq<Range<usize>>,
)
    requires
        n > 0,
        tiles(ranges, 0, n),
        neighbours_differ(key, ranges),
        forall|i: int, j: int| 0 <= i < n && 0 <= j < n ==> #[trigger] rows_equal(key, i, j),
    ensures
        ranges.len() == 1,
        ranges[0].start == 0,
        ranges[0].end == n,
{
    lemma_tiles_partition(ranges, 0, n);
    if ranges.len() > 1 {
        let a = ranges[0].end - 1;
        let b = ranges[1].start as int;
        assert(ranges[0].start < ranges[0].end);
        assert(ranges[1].start < ranges[1].end);
        assert(rows_equal(key, a, b));
        lemma_equal_iff_rows_equal(key, a, b);
        assert(key_cmp(key, ranges[0].end - 1, ranges[1].start as int) != Ordering::Equal);
    }
}

/// The half-open range `[start, end)`.
pub fn range(start: usize, end: usize) -> (r: Range<usize>)
    ensures
        r.start == start,
        r.end == end,
{
    Range { start, end }
}

/// Yields, one at a time and in order, the runs of rows that share the whole
/// key.
pub struct KeyRangeIterator<'a> {
    comparator: KeyRangeComparator<'a>,
    num_rows: usize,
    start_range_idx: usize,
}

/// The runs of equal keys over `columns`, most significant column first.
pub fn key_ranges(columns: &[SortColumn]) -> (r: Result<KeyRangeIterator<'_>, KeyRangeError>)
    ensures
        columns@.len() == 0 <==> r == Err::<KeyRangeIterator<'_>, KeyRangeError>(
            KeyRangeError::EmptyKey,
        ),
        r == Err::<KeyRangeIterator<'_>, KeyRangeError>(KeyRangeError::RowCountMismatch) <==> (
        columns@.len() > 0 && exists|c: int|
            0 <= c < columns@.len() && #[trigger] columns@[c].values.spec_len()
                != columns@[0].values.spec_len()),
        r is Ok <==> (columns@.len() > 0 && forall|c: int|
            0 <= c < columns@.len() ==> #[trigger] columns@[c].values.spec_len()
                == columns@[0].values.spec_len()),
        r is Ok ==> {
            &&& r->Ok_0.wf()
            &&& r->Ok_0.key() == key_of(columns@)
            &&& r->Ok_0.rows() == columns@[0].values.spec_len()
            &&& r->Ok_0.cursor() == 0
        },
{
    KeyRangeIterator::try_new(columns)
}

impl<'a> KeyRangeIterator<'a> {
    /// The key compared by.
    pub closed spec fn key(&self) -> Seq<(Column, SortSpec)> {
        self.comparator.key()
    }

    /// The number of rows.
    pub closed spec fn rows(&self) -> nat {
        self.num_rows as nat
    }

    /// The first row not yet handed out.
    pub closed spec fn cursor(&self) -> nat {
        self.start_range_idx as nat
    }

    pub closed spec fn wf(&self) -> bool {
        &&& self.comparator.wf()
        &&& self.comparator.rows() == self.num_rows
        &&& self.start_range_idx <= self.num_rows
    }

    /// Starts a scan of `columns` at row 0. Fails on an empty list, or where
    /// the columns differ in length.
    pub fn try_new(columns: &'a [SortColumn]) -> (r: Result<KeyRangeIterator<'a>, KeyRangeError>)
        ensures
            columns@.len() == 0 <==> r == Err::<KeyRangeIterator<'a>, KeyRangeError>(
                KeyRangeError::EmptyKey,
            ),
            r == Err::<KeyRangeIterator<'a>, KeyRangeError>(KeyRangeError::RowCountMismatch)
                <==> (columns@.len() > 0 && exists|c: int|
                0 <= c < columns@.len() && #[trigger] columns@[c].values.spec_len()
                    != columns@[0].values.spec_len()),
            r is Ok <==> (columns@.len() > 0 && forall|c: int|
                0 <= c < columns@.len() ==> #[trigger] columns@[c].values.spec_len()
                    == columns@[0].values.spec_len()),
            r is Ok ==> {
                &&& r->Ok_0.wf()
                &&& r->Ok_0.key() == key_of(columns@)
                &&& r->Ok_0.rows() == columns@[0].values.spec_len()
                &&& r->Ok_0.cursor() == 0
            },
    {
        match KeyRangeComparator::try_new(columns) {
            Err(e) => Err(e),
            Ok(comparator) => {
                let num_rows = comparator.num_rows();
                Ok(KeyRangeIterator { comparator, num_rows, start_range_idx: 0 })
            },
        }
    }

    /// The next run, or `None` once every row has been handed out.
    pub fn next(&mut self) -> (r: Option<Range<usize>>)
        requires
            old(self).wf(),
        ensures
            final(self).wf(),
            final(self).key() == old(self).key(),
            final(self).rows() == old(self).rows(),
            old(self).cursor() == old(self).rows() <==> r is None,
            r is None ==> final(self).cursor() == old(self).cursor(),
            r is Some ==> {
                &&& r->Some_0.start == old(self).cursor()
                &&& r->Some_0.end == final(self).cursor()
                &&& is_run(
                    old(self).key(),
                    old(self).rows() as int,
                    r->Some_0.start as int,
                    r->Some_0.end as int,
                )
            },
    {
        if self.start_range_idx >= self.num_rows {
            return None;
        }
        let start = self.start_range_idx;
        let mut idx = start + 1;
        proof {
            lemma_equal_iff_rows_equal(self.key(), start as int, start as int);
        }
        while idx < self.num_rows
            invariant
                self.wf(),
                self.start_range_idx == start,
                start < idx <= self.num_rows,
                forall|k: int|
                    start <= k < idx ==> #[trigger] key_cmp(self.key(), start as int, k)
                        == Ordering::Equal,
            ensures
                start < idx <= self.num_rows,
                forall|k: int|
                    start <= k < idx ==> #[trigger] key_cmp(self.key(), start as int, k)
                        == Ordering::Equal,
                idx < self.num_rows ==> key_cmp(self.key(), start as int, idx as int)
                    != Ordering::Equal,
            decreases self.num_rows - idx,
        {
            match self.comparator.compare(&start, &idx) {
                Ordering::Equal => {
                    idx = idx + 1;
                },
                _ => {
                    break;
                },
            }
        }
        self.start_range_idx = idx;
        Some(Range { start, end: idx })
    }

    /// Hands out every remaining run, in order. From a fresh scan the result
    /// cuts all rows into runs: the rows of one run compare `Equal`, and the
    /// last row of a run differs from the first row of the next.
    pub fn collect_ranges(&mut self) -> (r: Vec<Range<usize>>)
        requires
            old(self).wf(),
        ensures
            final(self).wf(),
            final(self).key() == old(self).key(),
            final(self).rows() == old(self).rows(),
            final(self).cursor() == final(self).rows(),
            tiles(r@, old(self).cursor() as int, old(self).rows() as int),
            forall|k: int| 0 <= k < r@.len() ==> uniform(old(self).key(), #[trigger] r@[k]),
            neighbours_differ(old(self).key(), r@),
    {
        let ghost key = self.key();
        let ghost n = self.rows() as int;
        let ghost first = self.cursor() as int;
        let mut out: Vec<Range<usize>> = Vec::new();
        while self.start_range_idx < self.num_rows
            invariant
                self.wf(),
                self.key() == key,
                self.rows() == n,
                first <= self.cursor(),
                tiles(out@, first, self.cursor() as int),
                forall|k: int| 0 <= k < out@.len() ==> uniform(key, #[trigger] out@[k]),
                neighbours_differ(key, out@),
                out@.len() > 0 && self.cursor() < n ==> key_cmp(
                    key,
                    out@.last().end - 1,
                    self.cursor() as int,
                ) != Ordering::Equal,
            decreases n - self.cursor(),
        {
            let ghost before = out@;
            if let Some(r) = self.next() {
                proof {
                    lemma_run(key, n, r);
                }
                out.push(r);
                assert(out@.drop_last() == before);
                assert forall|k: int| 0 <= k < out@.len() - 1 implies #[trigger] out@[k].end
                    == out@[k + 1].start by {
                    if k < before.len() - 1 {
                        assert(before[k].end == before[k + 1].start);
                    }
                }
            }
        }
        out
    }
}

} // verus!
