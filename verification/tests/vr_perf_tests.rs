use mittens::vr_perf::{numbered_report_name, report_file_name, utc_timestamp, DurationStats, VrPerfCase};

const MILLI: u64 = 1_000_000;
const MICRO: u64 = 1_000;

#[test]
fn canonical_cases_resolve_expected_switches() {
    for case in VrPerfCase::ALL {
        assert_eq!(VrPerfCase::parse(case.as_str()), Some(case));
    }
    assert!(!VrPerfCase::AvatarNoSpringNoMirror.mirror());
    assert!(VrPerfCase::AvatarNoSpringMirror.mirror());
    assert!(!VrPerfCase::AvatarNoSpringMirror.secondary_motion());
    assert!(VrPerfCase::AvatarSpringNoVizMirror.secondary_motion());
    assert!(VrPerfCase::AvatarSpringVizMirror.visualization());
    assert_eq!(VrPerfCase::parse("unknown"), None);
}

#[test]
fn duration_stats_use_nearest_rank_tail_percentiles() {
    let samples: Vec<u64> = (1..=100).map(|ms| ms * MILLI).collect();
    let stats = DurationStats::from_samples(&samples).unwrap();
    assert_eq!(stats.mean, 50 * MILLI + 500 * MICRO);
    assert_eq!(stats.median, 51 * MILLI);
    assert_eq!(stats.p95, 96 * MILLI);
    assert_eq!(stats.p99, 100 * MILLI);
    assert_eq!(stats.min, MILLI);
    assert_eq!(stats.max, 100 * MILLI);
}

#[test]
fn unix_epoch_formats_as_utc_timestamp() {
    assert_eq!(utc_timestamp(0), "19700101-000000Z");
}

#[test]
fn no_samples_give_no_stats() {
    assert_eq!(DurationStats::from_samples(&[]), None);
}

#[test]
fn single_sample_is_every_statistic() {
    let stats = DurationStats::from_samples(&[7]).unwrap();
    assert_eq!((stats.mean, stats.median, stats.p95, stats.p99, stats.min, stats.max), (7, 7, 7, 7, 7, 7));
}

#[test]
fn timestamp_formats_a_later_date() {
    assert_eq!(utc_timestamp(951_782_400 + 3_723), "20000229-010203Z");
}

#[test]
fn report_names_number_alternatives_before_the_extension() {
    assert_eq!(
        report_file_name("19700101-000000Z", VrPerfCase::AvatarNoSpringNoMirror),
        "19700101-000000Z__avatar_no_spring_no_mirror.md"
    );
    assert_eq!(numbered_report_name("report.md", 1), "report__1.md");
    assert_eq!(numbered_report_name("archive.tar.gz", 12), "archive.tar__12.gz");
    assert_eq!(numbered_report_name("notes", 3), "notes__3");
    assert_eq!(numbered_report_name("trailing.", 1), "trailing__1");
    assert_eq!(numbered_report_name(".hidden", 2), "__2.hidden");
}
