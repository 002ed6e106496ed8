use pjsekai_scores_rs::output::{
    format_duration, format_duration_nanos, output_format, output_format_for_extension,
    parse_jpeg_quality, OutputFormat,
};
use std::time::Duration;

#[test]
fn formats_short_durations_in_microseconds() {
    assert_eq!(format_duration(Duration::from_nanos(500)), "0.500us");
}

#[test]
fn formats_medium_durations_in_milliseconds() {
    assert_eq!(format_duration(Duration::from_micros(1_500)), "1.500ms");
}

#[test]
fn formats_long_durations_in_seconds() {
    assert_eq!(format_duration(Duration::from_millis(1_250)), "1.250s");
}

#[test]
fn rounds_durations_to_three_decimals() {
    assert_eq!(format_duration_nanos(1_234_567), "1.235ms");
    assert_eq!(format_duration_nanos(2_000_000_000), "2.000s");
    assert_eq!(format_duration_nanos(999_999_999), "1000.000ms");
    assert_eq!(format_duration_nanos(0), "0.000us");
    assert_eq!(format_duration_nanos(61_000_400_000), "61.000s");
}

#[test]
fn picks_output_format_by_extension() {
    assert_eq!(output_format("chart.svg"), Ok(OutputFormat::Svg));
    assert_eq!(output_format("chart"), Ok(OutputFormat::Svg));
    assert_eq!(output_format("out/chart.PNG"), Ok(OutputFormat::Png));
    assert_eq!(output_format("chart.jpg"), Ok(OutputFormat::Jpeg));
    assert_eq!(output_format("chart.JpEg"), Ok(OutputFormat::Jpeg));
    assert_eq!(
        output_format("chart.GIF"),
        Err("unsupported output extension `gif`; use .svg, .png, .jpg, or .jpeg".to_string())
    );
    assert_eq!(output_format_for_extension(None), Ok(OutputFormat::Svg));
}

#[test]
fn parses_jpeg_quality_range() {
    assert_eq!(parse_jpeg_quality("90"), Ok(90));
    assert_eq!(parse_jpeg_quality("+7"), Ok(7));
    assert_eq!(parse_jpeg_quality("100"), Ok(100));
    let message = "JPEG quality must be an integer from 0 to 100".to_string();
    assert_eq!(parse_jpeg_quality("101"), Err(message.clone()));
    assert_eq!(parse_jpeg_quality("256"), Err(message.clone()));
    assert_eq!(parse_jpeg_quality("-1"), Err(message.clone()));
    assert_eq!(parse_jpeg_quality(" 5"), Err(message));
}

#[test]
fn plain_file_names_choose_their_format_on_every_platform() {
    assert_eq!(output_format("chart.png"), Ok(OutputFormat::Png));
    assert_eq!(output_format(".png"), Ok(OutputFormat::Svg));
    assert_eq!(
        output_format("chart."),
        Err("unsupported output extension ``; use .svg, .png, .jpg, or .jpeg".to_string())
    );
}

#[test]
fn duration_text_follows_the_float_value() {
    // 1 000 500 ns is 1.0005000000000002 ms as a binary64.
    assert_eq!(format_duration_nanos(1_000_500), "1.001ms");
    assert_eq!(format_duration_nanos(1_001_500), "1.002ms");
}

fn float_text(duration: Duration) -> String {
    let secs = duration.as_secs_f64();
    if secs >= 1.0 {
        format!("{secs:.3}s")
    } else if duration.as_micros() >= 1_000 {
        format!("{:.3}ms", secs * 1_000.0)
    } else {
        format!("{:.3}us", secs * 1_000_000.0)
    }
}

#[test]
fn duration_text_matches_f64_formatting() {
    let mut cases: Vec<Duration> = vec![
        Duration::new(1, 62_500_000),
        Duration::new(0, 62_500_000),
        Duration::new(0, 1_062_500),
        Duration::new(0, 999_999_999),
        Duration::new(0, 1),
        Duration::new(0, 999_500),
        Duration::new(2, 500_000),
        Duration::new(4_503_599_627_370_495, 999_999_999),
        Duration::new(9_007_199_254_740_993, 500_000_000),
        Duration::new(u64::MAX, 999_999_999),
        Duration::new(123_456_789, 987_654_321),
    ];
    let mut x: u64 = 0x9e37_79b9_7f4a_7c15;
    for _ in 0..3000 {
        x ^= x << 13;
        x ^= x >> 7;
        x ^= x << 17;
        let nanos = (x % 3_000_000_000) as u32 as u64;
        cases.push(Duration::new(nanos / 1_000_000_000, (nanos % 1_000_000_000) as u32));
        cases.push(Duration::new(0, (x % 2_000_000) as u32));
        cases.push(Duration::new(x >> (x % 64), (x % 1_000_000_000) as u32));
    }
    for k in 0..4000u32 {
        cases.push(Duration::new(0, k * 500));
        cases.push(Duration::new(0, 1_000_000 + k * 500));
        cases.push(Duration::new(1 + (k as u64 % 7), k * 500_000));
    }
    for d in cases {
        assert_eq!(format_duration(d), float_text(d), "{:?}", d);
    }
}
