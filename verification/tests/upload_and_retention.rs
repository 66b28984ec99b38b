//! Tests of the dirty set, path rendering, remote keys, retention decisions
//! and provider selection.

use scraping_service::civil::civil_date_minus_days;
use scraping_service::civil::civil_ymd_of_micros;
use scraping_service::civil::CivilDate;
use scraping_service::civil::date_is_before;
use scraping_service::dirty::DirtySet;
use scraping_service::paths::partition_path;
use scraping_service::paths::remote_key_for;
use scraping_service::provider::provider_for_url;
use scraping_service::provider::ProviderKind;
use scraping_service::retention::day_dir_outside_retention;
use scraping_service::retention::extract_date_part;
use scraping_service::retention::retention_cutoff_date;

#[test]
fn marking_twice_keeps_one_entry() {
    let mut dirty = DirtySet::new();
    dirty.mark(String::from("data/a/year=2025/month=03/day=31/data.parquet"));
    dirty.mark(String::from("data/a/year=2025/month=03/day=31/data.parquet"));
    dirty.mark(String::from("data/b/year=2025/month=03/day=31/data.parquet"));
    let batch = dirty.drain();
    assert_eq!(batch.len(), 2);
}

#[test]
fn failed_upload_reappears_exactly_once() {
    let mut dirty = DirtySet::new();
    let path = String::from("data/a/year=2025/month=03/day=31/data.parquet");
    dirty.mark(path.clone());
    dirty.mark(path.clone());

    let batch = dirty.drain();
    assert_eq!(batch.len(), 1);

    // The store re-marks the file while its upload is in flight, the upload
    // fails and the whole batch is requeued: still a single pending entry.
    dirty.mark(path.clone());
    dirty.requeue(&batch);
    let retry = dirty.drain();
    assert_eq!(retry.len(), 1);
    assert_eq!(retry[0], path);
}

#[test]
fn drain_leaves_set_empty() {
    let mut dirty = DirtySet::new();
    dirty.mark(String::from("data/x"));
    let first = dirty.drain();
    assert_eq!(first.len(), 1);
    let second = dirty.drain();
    assert_eq!(second.len(), 0);
}

#[test]
fn partition_path_layout() {
    let p = partition_path("data", "apg_at_cz_exchange", 2025, 3, 7);
    assert_eq!(p, "data/apg_at_cz_exchange/year=2025/month=03/day=07/data.parquet");
    let q = partition_path("data", "entsoe_prices", 2025, 11, 30);
    assert_eq!(q, "data/entsoe_prices/year=2025/month=11/day=30/data.parquet");
}

#[test]
fn remote_key_mirrors_local_layout() {
    let key = remote_key_for(
        "data/apg/year=2025/month=03/day=07/data.parquet",
        "data/",
        "data/",
    );
    assert_eq!(key.unwrap(), "data/apg/year=2025/month=03/day=07/data.parquet");

    let prefixed = remote_key_for(
        "data/apg/year=2025/month=03/day=07/data.parquet",
        "data/",
        "mirror/v1/",
    );
    assert_eq!(prefixed.unwrap(), "mirror/v1/apg/year=2025/month=03/day=07/data.parquet");

    assert!(remote_key_for("elsewhere/file.parquet", "data/", "data/").is_none());
}

#[test]
fn date_parts_parse_only_conforming_names() {
    assert_eq!(extract_date_part("day=07", "day="), Some(7));
    assert_eq!(extract_date_part("year=2025", "year="), Some(2025));
    assert_eq!(extract_date_part("day=", "day="), None);
    assert_eq!(extract_date_part("month=3a", "month="), None);
    assert_eq!(extract_date_part("notaday", "day="), None);
    assert_eq!(extract_date_part("day=99999999999", "day="), None);
}

#[test]
fn retention_boundary_keeps_cutoff_day() {
    let cutoff = CivilDate { year: 2025, month: 3, day: 15 };
    // Dated exactly at the cutoff: retained.
    assert!(!day_dir_outside_retention("day=15", "month=03", "year=2025", cutoff));
    // One day older: deleted.
    assert!(day_dir_outside_retention("day=14", "month=03", "year=2025", cutoff));
    // Last day of the previous month: deleted.
    assert!(day_dir_outside_retention("day=28", "month=02", "year=2025", cutoff));
    // Newer than the cutoff: retained.
    assert!(!day_dir_outside_retention("day=16", "month=03", "year=2025", cutoff));
}

#[test]
fn retention_never_deletes_nonconforming_directories() {
    let cutoff = CivilDate { year: 2025, month: 3, day: 15 };
    assert!(!day_dir_outside_retention("archive", "month=01", "year=2020", cutoff));
    assert!(!day_dir_outside_retention("day=01", "backup", "year=2020", cutoff));
    assert!(!day_dir_outside_retention("day=01", "month=01", "old", cutoff));
    assert!(!day_dir_outside_retention("day=40", "month=01", "year=2020", cutoff));
    assert!(!day_dir_outside_retention("day=01", "month=13", "year=2020", cutoff));
}

#[test]
fn cutoff_is_today_minus_retention_days() {
    // 2025-03-30T12:00:00Z is 14:00 local on 2025-03-30; seven calendar days
    // earlier is 2025-03-23.
    let now = 1743336000000000i64;
    let cutoff = retention_cutoff_date(now, 7).unwrap();
    assert_eq!((cutoff.year, cutoff.month, cutoff.day), (2025, 3, 23));
}

#[test]
fn cutoff_at_daylight_saving_fall_back_keeps_boundary_day() {
    // 2025-10-26T22:30:00Z is 23:30 local on the fall-back day (UTC+1 again),
    // so today is 2025-10-26 and the cutoff with one retention day is
    // 2025-10-25. The boundary day is retained. Subtracting 24 hours from the
    // instant instead would land at 00:30 local on the 26th — a cutoff of
    // 2025-10-26 — and wrongly delete the boundary day.
    let now = 1761517800000000i64;
    let cutoff = retention_cutoff_date(now, 1).unwrap();
    assert_eq!((cutoff.year, cutoff.month, cutoff.day), (2025, 10, 25));
    assert!(!day_dir_outside_retention("day=25", "month=10", "year=2025", cutoff));
    assert!(day_dir_outside_retention("day=24", "month=10", "year=2025", cutoff));
}

#[test]
fn calendar_subtraction_handles_leap_years() {
    let minus = |y: i32, m: u32, d: u32, n: u64| {
        let r = civil_date_minus_days(CivilDate { year: y, month: m, day: d }, n).unwrap();
        (r.year, r.month, r.day)
    };
    assert_eq!(minus(2025, 3, 30, 0), (2025, 3, 30));
    assert_eq!(minus(2024, 3, 1, 1), (2024, 2, 29)); // leap year
    assert_eq!(minus(2023, 3, 1, 1), (2023, 2, 28)); // common year
    assert_eq!(minus(1900, 3, 1, 1), (1900, 2, 28)); // century, not leap
    assert_eq!(minus(2000, 3, 1, 1), (2000, 2, 29)); // quadricentennial, leap
    assert_eq!(minus(2025, 1, 1, 1), (2024, 12, 31)); // year boundary
    assert_eq!(minus(2024, 3, 1, 366), (2023, 3, 1)); // across a leap day
}

#[test]
fn date_order_is_lexicographic() {
    let a = CivilDate { year: 2024, month: 12, day: 31 };
    let b = CivilDate { year: 2025, month: 1, day: 1 };
    assert!(date_is_before(a, b));
    assert!(!date_is_before(b, a));
    assert!(!date_is_before(b, b));
}

#[test]
fn civil_conversion_matches_reference_timezone() {
    // Midday UTC on 2025-03-31 is the same local date.
    let ymd = civil_ymd_of_micros(1743415200000000).unwrap();
    assert_eq!(ymd, (2025, 3, 31));
}

#[test]
fn provider_is_chosen_by_url_marker() {
    assert_eq!(
        provider_for_url("https://web-api.tp.entsoe.eu/api"),
        Some(ProviderKind::Entsoe)
    );
    assert_eq!(
        provider_for_url("https://transparency.apg.at/api"),
        Some(ProviderKind::Apg)
    );
    // The ENTSO-E marker takes precedence where both occur.
    assert_eq!(
        provider_for_url("https://entsoe.example/apg"),
        Some(ProviderKind::Entsoe)
    );
    assert_eq!(provider_for_url("https://example.org/data"), None);
}
