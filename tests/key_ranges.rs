use key_ranges::column::{Column, SortColumn, SortSpec};
use key_ranges::column::compare_bytes;
use key_ranges::comparator::{check_row_counts, KeyRangeComparator, KeyRangeError};
use key_ranges::ranges::{key_ranges, range};
use std::cmp::Ordering;
use std::ops::Range;

fn int_column(values: Vec<Option<i64>>) -> SortColumn {
    SortColumn { values: Column::Int64(values), options: None }
}

fn collect(columns: &[SortColumn]) -> Vec<Range<usize>> {
    key_ranges(columns).unwrap().collect_ranges()
}

fn canonical_columns() -> Vec<SortColumn> {
    let mut lowest_cardinality = vec![Some(1); 9];
    lowest_cardinality.push(Some(2));

    let mut second_highest_cardinality = vec![Some(1); 7];
    second_highest_cardinality.append(&mut vec![Some(2); 3]);

    let mut time = vec![Some(1), Some(10), Some(8), Some(9), Some(9), Some(1)];
    time.append(&mut vec![Some(15); 4]);

    let mut highest_cardinality = vec![Some(1), Some(1), Some(3), Some(4), Some(4)];
    highest_cardinality.append(&mut vec![Some(5); 5]);

    vec![
        int_column(highest_cardinality),
        int_column(time),
        int_column(second_highest_cardinality),
        int_column(lowest_cardinality),
    ]
}

#[test]
fn test_key_ranges() {
    let input = canonical_columns();
    let expected_key_range = vec![
        range(0, 1),
        range(1, 2),
        range(2, 3),
        range(3, 5),
        range(5, 6),
        range(6, 7),
        range(7, 9),
        range(9, 10),
    ];
    assert_eq!(collect(&input), expected_key_range);
}

#[test]
fn ranges_partition_rows_in_order() {
    let input = canonical_columns();
    let ranges = collect(&input);
    assert_eq!(ranges[0].start, 0);
    assert_eq!(ranges[ranges.len() - 1].end, 10);
    for w in ranges.windows(2) {
        assert!(w[0].start < w[0].end);
        assert_eq!(w[0].end, w[1].start);
    }
}

#[test]
fn rows_in_a_range_compare_equal_and_neighbours_differ() {
    let input = canonical_columns();
    let cmp = KeyRangeComparator::try_new(&input).unwrap();
    let ranges = collect(&input);
    for r in &ranges {
        for i in r.clone() {
            for j in r.clone() {
                assert_eq!(cmp.compare(&i, &j), Ordering::Equal);
            }
        }
    }
    for w in ranges.windows(2) {
        assert_ne!(cmp.compare(&(w[0].end - 1), &w[1].start), Ordering::Equal);
    }
}

#[test]
fn empty_key_is_rejected() {
    let input: Vec<SortColumn> = vec![];
    assert!(matches!(key_ranges(&input), Err(KeyRangeError::EmptyKey)));
    assert!(matches!(KeyRangeComparator::try_new(&input), Err(KeyRangeError::EmptyKey)));
}

#[test]
fn mismatched_row_counts_are_rejected() {
    let input = vec![int_column(vec![Some(1), Some(2)]), int_column(vec![Some(1)])];
    assert!(matches!(key_ranges(&input), Err(KeyRangeError::RowCountMismatch)));
    assert!(matches!(
        KeyRangeComparator::try_new(&input),
        Err(KeyRangeError::RowCountMismatch)
    ));
}

#[test]
fn single_row_gives_one_range() {
    let input = vec![int_column(vec![Some(42)])];
    assert_eq!(collect(&input), vec![range(0, 1)]);
}

#[test]
fn all_equal_rows_give_one_range() {
    let input = vec![
        int_column(vec![Some(7); 6]),
        SortColumn { values: Column::Boolean(vec![Some(true); 6]), options: None },
        SortColumn { values: Column::UInt64(vec![None; 6]), options: None },
    ];
    assert_eq!(collect(&input), vec![range(0, 6)]);
}

#[test]
fn no_rows_give_no_ranges() {
    let input = vec![int_column(vec![])];
    assert_eq!(collect(&input), Vec::<Range<usize>>::new());
}

#[test]
fn equal_rows_apart_fall_in_different_ranges() {
    let input = vec![int_column(vec![Some(1), Some(2), Some(1)])];
    assert_eq!(collect(&input), vec![range(0, 1), range(1, 2), range(2, 3)]);
}

#[test]
fn next_hands_out_runs_then_none() {
    let input = vec![int_column(vec![Some(1), Some(1), None, None])];
    let mut it = key_ranges(&input).unwrap();
    assert_eq!(it.next(), Some(range(0, 2)));
    assert_eq!(it.next(), Some(range(2, 4)));
    assert_eq!(it.next(), None);
    assert_eq!(it.next(), None);
}

#[test]
fn nulls_first_is_less_whatever_the_direction() {
    for descending in [false, true] {
        let input = vec![SortColumn {
            values: Column::Int64(vec![None, Some(3)]),
            options: Some(SortSpec { descending, nulls_first: true }),
        }];
        let cmp = KeyRangeComparator::try_new(&input).unwrap();
        assert_eq!(cmp.compare(&0, &1), Ordering::Less);
        assert_eq!(cmp.compare(&1, &0), Ordering::Greater);
    }
}

#[test]
fn nulls_last_by_default() {
    let input = vec![int_column(vec![None, Some(3)])];
    let cmp = KeyRangeComparator::try_new(&input).unwrap();
    assert_eq!(cmp.compare(&0, &1), Ordering::Greater);
    assert_eq!(cmp.compare(&1, &0), Ordering::Less);
}

#[test]
fn descending_reverses_values() {
    let asc = vec![int_column(vec![Some(1), Some(2)])];
    let desc = vec![SortColumn {
        values: Column::Int64(vec![Some(1), Some(2)]),
        options: Some(SortSpec { descending: true, nulls_first: false }),
    }];
    let a = KeyRangeComparator::try_new(&asc).unwrap();
    let d = KeyRangeComparator::try_new(&desc).unwrap();
    assert_eq!(a.compare(&0, &1), Ordering::Less);
    assert_eq!(d.compare(&0, &1), Ordering::Greater);
    assert_eq!(d.compare(&1, &1), Ordering::Equal);
}

#[test]
fn later_columns_decide_only_after_equal_ones() {
    let input = vec![
        SortColumn {
            values: Column::UInt64(vec![Some(5), Some(5), Some(6)]),
            options: None,
        },
        SortColumn {
            values: Column::Boolean(vec![Some(true), Some(false), Some(false)]),
            options: None,
        },
    ];
    let cmp = KeyRangeComparator::try_new(&input).unwrap();
    assert_eq!(cmp.compare(&0, &1), Ordering::Greater);
    assert_eq!(cmp.compare(&1, &2), Ordering::Less);
    assert_eq!(cmp.compare(&0, &2), Ordering::Less);
}

#[test]
fn compare_is_repeatable() {
    let input = canonical_columns();
    let cmp = KeyRangeComparator::try_new(&input).unwrap();
    for i in 0..10usize {
        for j in 0..10usize {
            assert_eq!(cmp.compare(&i, &j), cmp.compare(&i, &j));
        }
    }
    assert_eq!(cmp.num_rows(), 10);
}

#[test]
fn default_sort_spec_is_ascending_nulls_last() {
    let d = SortSpec::default();
    assert!(!d.descending);
    assert!(!d.nulls_first);
}

fn text_column(values: &[Option<&str>]) -> SortColumn {
    SortColumn {
        values: Column::Bytes(values.iter().map(|v| v.map(|s| s.as_bytes().to_vec())).collect()),
        options: None,
    }
}

#[test]
fn byte_strings_compare_lexicographically_prefix_first() {
    assert_eq!(compare_bytes(&b"abc".to_vec(), &b"abd".to_vec()), Ordering::Less);
    assert_eq!(compare_bytes(&b"ab".to_vec(), &b"abc".to_vec()), Ordering::Less);
    assert_eq!(compare_bytes(&b"abc".to_vec(), &b"ab".to_vec()), Ordering::Greater);
    assert_eq!(compare_bytes(&b"b".to_vec(), &b"abc".to_vec()), Ordering::Greater);
    assert_eq!(compare_bytes(&b"".to_vec(), &b"".to_vec()), Ordering::Equal);
    assert_eq!(compare_bytes(&b"same".to_vec(), &b"same".to_vec()), Ordering::Equal);
    assert_eq!(compare_bytes(&vec![0xff], &vec![0x01, 0x02]), Ordering::Greater);
}

#[test]
fn string_tag_columns_split_into_runs() {
    let input = vec![
        text_column(&[Some("east"), Some("east"), Some("east"), Some("west"), None, None]),
        text_column(&[Some("a"), Some("a"), Some("ab"), Some("a"), Some("a"), Some("a")]),
    ];
    assert_eq!(collect(&input), vec![range(0, 2), range(2, 3), range(3, 4), range(4, 6)]);
    let cmp = KeyRangeComparator::try_new(&input).unwrap();
    assert_eq!(cmp.compare(&1, &2), Ordering::Less);
    assert_eq!(cmp.compare(&3, &2), Ordering::Greater);
    assert_eq!(cmp.compare(&4, &3), Ordering::Greater);
}

#[test]
fn descending_byte_strings_reverse() {
    let input = vec![SortColumn {
        values: Column::Bytes(vec![Some(b"b".to_vec()), Some(b"a".to_vec()), None]),
        options: Some(SortSpec { descending: true, nulls_first: false }),
    }];
    let cmp = KeyRangeComparator::try_new(&input).unwrap();
    assert_eq!(cmp.compare(&0, &1), Ordering::Less);
    assert_eq!(cmp.compare(&1, &2), Ordering::Less);
}

#[test]
fn wide_decimal_values_compare_by_value() {
    let big: i128 = 170_141_183_460_469_231_731_687_303_715_884_105_000;
    let input = vec![SortColumn {
        values: Column::Int128(vec![Some(-big), Some(big), Some(big)]),
        options: None,
    }];
    assert_eq!(collect(&input), vec![range(0, 1), range(1, 3)]);
    let cmp = KeyRangeComparator::try_new(&input).unwrap();
    assert_eq!(cmp.compare(&0, &1), Ordering::Less);
}

#[test]
fn row_counts_are_checked() {
    assert_eq!(check_row_counts(&[]), Err(KeyRangeError::EmptyKey));
    assert_eq!(check_row_counts(&[3, 3, 2]), Err(KeyRangeError::RowCountMismatch));
    assert_eq!(check_row_counts(&[4, 4, 4]), Ok(()));
    assert_eq!(check_row_counts(&[0]), Ok(()));
}
