use diffr::config::{color_spec, AppConfig, Color, Face};
use diffr::stats::{duration_ms_since, elapsed_ms, now, ExecStats, Timer};

#[test]
fn default_faces() {
    let config = AppConfig::default();
    assert!(!config.debug);
    assert_eq!(config.added_face, Face { fg: Some(Color::Green), bg: None, bold: false });
    assert_eq!(
        config.refine_added_face,
        Face { fg: Some(Color::White), bg: Some(Color::Green), bold: true }
    );
    assert_eq!(config.removed_face, Face { fg: Some(Color::Red), bg: None, bold: false });
    assert_eq!(
        config.refine_removed_face,
        Face { fg: Some(Color::White), bg: Some(Color::Red), bold: true }
    );
}

#[test]
fn color_spec_sets_every_attribute() {
    assert_eq!(
        color_spec(Some(Color::Blue), Some(Color::Yellow), true),
        Face { fg: Some(Color::Blue), bg: Some(Color::Yellow), bold: true }
    );
    assert_eq!(color_spec(None, None, false), Face::plain());
}

#[test]
fn now_reads_the_clock_only_when_asked() {
    assert!(now(true).is_some());
    assert!(now(false).is_none());
}

#[test]
fn duration_without_start_is_zero() {
    assert_eq!(duration_ms_since(&None), 0);
}

#[test]
fn duration_since_a_future_time_is_zero() {
    let later = std::time::SystemTime::now() + std::time::Duration::from_secs(3600);
    assert_eq!(duration_ms_since(&Some(later)), 0);
}

#[test]
fn duration_since_a_past_time_counts_milliseconds() {
    let earlier = std::time::SystemTime::now() - std::time::Duration::from_secs(3600);
    let ms = duration_ms_since(&Some(earlier));
    assert!(ms >= 3_000_000);
    assert!(ms < 7_200_000);
}

#[test]
fn stats_without_timings() {
    let mut stats = ExecStats::new(false);
    assert!(!stats.do_timings());
    stats.total_time_ms = 5;
    stats.stop();
    assert_eq!(stats.total_time_ms, 5);
    let mut rows = Vec::new();
    stats.report_into(&mut rows);
    assert!(rows.is_empty());
}

#[test]
fn stats_with_timings() {
    let mut stats = ExecStats::new(true);
    assert!(stats.do_timings());
    assert_eq!(stats.time_computing_diff_ms, 0);
    assert_eq!(stats.time_lcs_ms, 0);
    assert_eq!(stats.time_opt_lcs_ms, 0);
    assert_eq!(stats.total_time_ms, 0);
    stats.time_computing_diff_ms = 7;
    stats.time_lcs_ms = 4;
    stats.time_opt_lcs_ms = 2;
    stats.program_start = Some(std::time::SystemTime::now() - std::time::Duration::from_secs(3600));
    stats.stop();
    assert!(stats.total_time_ms >= 3_000_000);
    let mut rows = vec![(Timer::Total, 1)];
    stats.report_into(&mut rows);
    assert_eq!(
        rows,
        vec![
            (Timer::Total, 1),
            (Timer::HunkProcessing, 7),
            (Timer::ComputeLcs, 4),
            (Timer::OptimizeLcs, 2),
            (Timer::Total, stats.total_time_ms),
        ]
    );
}

#[test]
fn timer_names() {
    assert_eq!(Timer::HunkProcessing.name(), "hunk processing time");
    assert_eq!(Timer::ComputeLcs.name(), "-- compute lcs");
    assert_eq!(Timer::OptimizeLcs.name(), "-- optimize lcs");
    assert_eq!(Timer::Total.name(), "total processing time");
}

#[test]
fn root_names() {
    assert_eq!(diffr::skip_all_escape_code(b"\x1b[1mx"), 4);
    assert_eq!(diffr::first_after_escape(b"\x1b[1mx"), Some(b'x'));
    assert_eq!(diffr::index_of(b"xyz", b'z'), Some(2));
    assert_eq!(diffr::skip_token(b"xyz"), 3);
    assert!(!diffr::AppConfig::default().debug);
    assert!(!diffr::ExecStats::new(false).do_timings());
    assert!(diffr::now(false).is_none());
    assert_eq!(diffr::duration_ms_since(&None), 0);
    let buffer = diffr::HunkBuffer::new(AppConfig::default());
    assert_eq!(buffer.lines.len(), 0);
}

#[test]
fn record_accumulates_stage_times() {
    let mut stats = ExecStats::new(false);
    stats.record(Timer::HunkProcessing, 5);
    stats.record(Timer::HunkProcessing, 7);
    stats.record(Timer::ComputeLcs, 3);
    stats.record(Timer::OptimizeLcs, 2);
    stats.record(Timer::OptimizeLcs, 0);
    stats.record(Timer::Total, 20);
    stats.record(Timer::Total, 30);
    assert_eq!(stats.time_computing_diff_ms, 12);
    assert_eq!(stats.time_lcs_ms, 3);
    assert_eq!(stats.time_opt_lcs_ms, 2);
    assert_eq!(stats.total_time_ms, 30);
}

#[test]
fn record_stops_at_the_largest_amount() {
    let mut stats = ExecStats::new(false);
    stats.record(Timer::ComputeLcs, u128::MAX - 1);
    stats.record(Timer::ComputeLcs, 5);
    assert_eq!(stats.time_lcs_ms, u128::MAX);
}

#[test]
fn elapsed_ms_counts_a_missing_measurement_as_zero() {
    assert_eq!(elapsed_ms(None), 0);
    assert_eq!(elapsed_ms(Some(0)), 0);
    assert_eq!(elapsed_ms(Some(1234)), 1234);
    assert_eq!(elapsed_ms(Some(u128::MAX)), u128::MAX);
}
