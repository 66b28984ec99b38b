//! Tests of the partition store: merging, deduplication and grouping.

use scraping_service::grouping::group_records;
use scraping_service::grouping::StoreError;
use scraping_service::merge::merge_rows;
use scraping_service::rows::merged_file_rows;
use scraping_service::rows::Measurement;
use scraping_service::rows::StoredRow;

fn m(start: i64, end: i64, value: f64) -> Measurement {
    Measurement { start_micros: start, end_micros: end, value_bits: value.to_bits() }
}

// 2025-03-31 in UTC, microseconds since the epoch.
const T0: i64 = 1743415200000000;
const T1: i64 = 1743416100000000;

#[test]
fn save_on_empty_store_then_identical_save_is_noop() {
    let existing: Vec<StoredRow> = Vec::new();
    let data = vec![m(T0, T1, 42.5), m(T1, T1 + 900_000_000, 43.25)];

    let first = merge_rows(&existing, &data, 1_000);
    assert!(first.changed);
    assert_eq!(first.appended.len(), 2);
    let stored = merged_file_rows(&existing, &first.appended);
    assert_eq!(stored.len(), 2);

    let second = merge_rows(&stored, &data, 2_000);
    assert!(!second.changed);
    assert_eq!(second.appended.len(), 0);
}

#[test]
fn changed_bits_append_and_keep_history() {
    let existing: Vec<StoredRow> = Vec::new();
    let v1 = vec![m(T0, T1, 10.0)];
    let first = merge_rows(&existing, &v1, 1_000);
    let stored = merged_file_rows(&existing, &first.appended);

    let v2 = vec![m(T0, T1, 10.5)];
    let second = merge_rows(&stored, &v2, 9_999);
    assert!(second.changed);
    assert_eq!(second.appended.len(), 1);
    assert_eq!(second.appended[0].value_bits, (10.5f64).to_bits());
    assert_eq!(second.appended[0].ingested_at, Some(9_999));

    // The old row remains in the file: history is append-only.
    let rewritten = merged_file_rows(&stored, &second.appended);
    assert_eq!(rewritten.len(), 2);
    assert_eq!(rewritten[0].value_bits, (10.0f64).to_bits());
    assert_eq!(rewritten[1].value_bits, (10.5f64).to_bits());
}

#[test]
fn bit_identical_nan_is_deduplicated() {
    let existing: Vec<StoredRow> = Vec::new();
    let v1 = vec![m(T0, T1, f64::NAN)];
    let first = merge_rows(&existing, &v1, 1_000);
    assert!(first.changed);
    let stored = merged_file_rows(&existing, &first.appended);

    // The same NaN bit pattern compares equal, though NaN != NaN numerically.
    let second = merge_rows(&stored, &v1, 2_000);
    assert!(!second.changed);
}

#[test]
fn batch_collapse_keeps_only_last_value_per_key() {
    let existing: Vec<StoredRow> = Vec::new();
    let data = vec![m(T0, T1, 1.0), m(T0, T1, 2.0)];
    let out = merge_rows(&existing, &data, 5_000);
    assert!(out.changed);
    assert_eq!(out.appended.len(), 1);
    assert_eq!(out.appended[0].value_bits, (2.0f64).to_bits());
    assert_eq!(out.appended[0].ingested_at, Some(5_000));
}

#[test]
fn unchanged_value_among_changed_ones() {
    let existing: Vec<StoredRow> = Vec::new();
    let v1 = vec![m(T0, T1, 7.0)];
    let stored = merged_file_rows(&existing, &merge_rows(&existing, &v1, 1).appended);

    let data = vec![m(T0, T1, 7.0), m(T1, T1 + 1, 8.0)];
    let out = merge_rows(&stored, &data, 2);
    assert!(out.changed);
    assert_eq!(out.appended.len(), 1);
    assert_eq!(out.appended[0].start_micros, T1);
}

#[test]
fn dedup_index_uses_latest_row_per_key() {
    // Two rows for one key: the later one is current, so repeating its value
    // is a no-op while repeating the earlier one appends again.
    let history = vec![
        StoredRow { start_micros: T0, end_micros: T1, value_bits: (1.0f64).to_bits(), ingested_at: None },
        StoredRow {
            start_micros: T0,
            end_micros: T1,
            value_bits: (2.0f64).to_bits(),
            ingested_at: Some(500),
        },
    ];
    let repeat_latest = merge_rows(&history, &vec![m(T0, T1, 2.0)], 1_000);
    assert!(!repeat_latest.changed);
    let repeat_earlier = merge_rows(&history, &vec![m(T0, T1, 1.0)], 1_000);
    assert!(repeat_earlier.changed);
}

#[test]
fn rows_written_before_ingestion_column_are_kept_as_is() {
    let history = vec![StoredRow {
        start_micros: T0,
        end_micros: T1,
        value_bits: (3.0f64).to_bits(),
        ingested_at: None,
    }];
    let out = merge_rows(&history, &vec![m(T0, T1, 4.0)], 77);
    let rewritten = merged_file_rows(&history, &out.appended);
    assert_eq!(rewritten[0].ingested_at, None);
    assert_eq!(rewritten[1].ingested_at, Some(77));
}

#[test]
fn civil_day_partitioning_crosses_utc_midnight() {
    // 2025-03-30T23:30:00Z is 2025-03-31T01:30 in the reference timezone
    // (daylight saving, UTC+2): the record belongs to the 31st, not the 30th.
    let data = vec![m(1743377400000000, 1743377400000000 + 1_800_000_000, 1.0)];
    let groups = group_records(&data).unwrap();
    assert_eq!(groups.len(), 1);
    assert_eq!((groups[0].year, groups[0].month, groups[0].day), (2025, 3, 31));
    assert_eq!(groups[0].records.len(), 1);
}

#[test]
fn civil_day_partitioning_in_winter() {
    // 2025-01-15T23:30:00Z is 2025-01-16T00:30 in the reference timezone
    // (standard time, UTC+1).
    let data = vec![m(1736983800000000, 1736983800000000 + 1_800_000_000, 1.0)];
    let groups = group_records(&data).unwrap();
    assert_eq!(groups.len(), 1);
    assert_eq!((groups[0].year, groups[0].month, groups[0].day), (2025, 1, 16));
}

#[test]
fn grouping_splits_by_civil_day_and_keeps_order() {
    let a = m(1743377400000000, 1743377400000000 + 1, 1.0); // 2025-03-31 local
    let b = m(T0, T0 + 1, 2.0); // 2025-03-31 local (midday)
    let c = m(1736983800000000, 1736983800000000 + 1, 3.0); // 2025-01-16 local
    let data = vec![a, b, c];
    let groups = group_records(&data).unwrap();
    assert_eq!(groups.len(), 2);
    let march = groups.iter().find(|g| g.month == 3).unwrap();
    let january = groups.iter().find(|g| g.month == 1).unwrap();
    assert_eq!(march.records.len(), 2);
    assert_eq!(march.records[0].value_bits, (1.0f64).to_bits());
    assert_eq!(march.records[1].value_bits, (2.0f64).to_bits());
    assert_eq!(january.records.len(), 1);
    assert_eq!((january.year, january.month, january.day), (2025, 1, 16));
}

#[test]
fn grouping_rejects_timestamp_outside_calendar() {
    let data = vec![m(i64::MAX, i64::MAX, 1.0)];
    let r = group_records(&data);
    assert!(matches!(r, Err(StoreError::TimestampOutOfRange)));
}

#[test]
fn merged_file_rows_keeps_existing_prefix() {
    let existing = vec![StoredRow {
        start_micros: 1,
        end_micros: 2,
        value_bits: 3,
        ingested_at: None,
    }];
    let appended = vec![StoredRow {
        start_micros: 4,
        end_micros: 5,
        value_bits: 6,
        ingested_at: Some(7),
    }];
    let all = merged_file_rows(&existing, &appended);
    assert_eq!(all.len(), 2);
    assert_eq!(all[0], existing[0]);
    assert_eq!(all[1], appended[0]);
}
