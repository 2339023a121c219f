use obsgrid::bytes::split_fields;
use obsgrid::counts::Counts;
use obsgrid::grid::RegionKey;
use obsgrid::numeric::{div_floor_i64, popcount64};
use obsgrid::parse::{parse_scaled, parse_u64};
use obsgrid::render::{format_duration, render_half_millionths, render_u64};
use obsgrid::serialize::{counts_to_string, sort_desc};
use obsgrid::strip_newline;

#[test]
fn div_floor_rounds_toward_negative_infinity() {
    assert_eq!(div_floor_i64(7, 2), 3);
    assert_eq!(div_floor_i64(-7, 2), -4);
    assert_eq!(div_floor_i64(-8, 2), -4);
    assert_eq!(div_floor_i64(0, 5), 0);
    assert_eq!(div_floor_i64(i64::MIN, 1), i64::MIN);
    assert_eq!(div_floor_i64(i64::MIN, 3), -3074457345618258603);
}

#[test]
fn popcount_counts_set_bits() {
    assert_eq!(popcount64(0), 0);
    assert_eq!(popcount64(1), 1);
    assert_eq!(popcount64(u64::MAX), 64);
    assert_eq!(popcount64(0b1011), 3);
}

#[test]
fn parse_u64_accepts_exactly_digit_strings() {
    assert_eq!(parse_u64(b"0"), Some(0));
    assert_eq!(parse_u64(b"123"), Some(123));
    assert_eq!(parse_u64(b"007"), Some(7));
    assert_eq!(parse_u64(b"18446744073709551615"), Some(u64::MAX));
    assert_eq!(parse_u64(b"18446744073709551616"), None);
    assert_eq!(parse_u64(b""), None);
    assert_eq!(parse_u64(b"12a"), None);
    assert_eq!(parse_u64(b"-3"), None);
    assert_eq!(parse_u64(b"X"), None);
}

#[test]
fn parse_scaled_reads_fixed_point_millionths() {
    assert_eq!(parse_scaled(b"12.3"), Some(12_300_000));
    assert_eq!(parse_scaled(b"-0.5"), Some(-500_000));
    assert_eq!(parse_scaled(b"+4"), Some(4_000_000));
    assert_eq!(parse_scaled(b"12."), Some(12_000_000));
    assert_eq!(parse_scaled(b".5"), Some(500_000));
    assert_eq!(parse_scaled(b"0.1234567"), Some(123_456));
    assert_eq!(parse_scaled(b"0"), Some(0));
    assert_eq!(parse_scaled(b"."), None);
    assert_eq!(parse_scaled(b""), None);
    assert_eq!(parse_scaled(b"1e3"), None);
    assert_eq!(parse_scaled(b"--1"), None);
    assert_eq!(parse_scaled(b"1.2.3"), None);
}

#[test]
fn render_digits_and_durations() {
    assert_eq!(render_u64(0), b"0".to_vec());
    assert_eq!(render_u64(1234567890), b"1234567890".to_vec());
    assert_eq!(format_duration(0), b"0:00:00".to_vec());
    assert_eq!(format_duration(3661), b"1:01:01".to_vec());
    assert_eq!(format_duration(86399), b"23:59:59".to_vec());
    assert_eq!(format_duration(360000), b"100:00:00".to_vec());
}

#[test]
fn render_half_millionths_is_exact_decimal() {
    // 25_000_000 half-millionths is 12.5 degrees
    assert_eq!(render_half_millionths(25_000_000), b"12.5".to_vec());
    assert_eq!(render_half_millionths(-25_000_000), b"-12.5".to_vec());
    assert_eq!(render_half_millionths(24_000_000), b"12".to_vec());
    // 24.5 cells of 0.5 degrees: centroid 12.25
    assert_eq!(render_half_millionths(2 * 24 * 500_000 + 500_000), b"12.25".to_vec());
}

#[test]
fn strip_newline_handles_both_terminators() {
    let mut a = b"abc\n".to_vec();
    strip_newline(&mut a);
    assert_eq!(a, b"abc".to_vec());
    let mut b = b"abc\r\n".to_vec();
    strip_newline(&mut b);
    assert_eq!(b, b"abc".to_vec());
    let mut c = b"abc".to_vec();
    strip_newline(&mut c);
    assert_eq!(c, b"abc".to_vec());
    let mut d = b"abc\r".to_vec();
    strip_newline(&mut d);
    assert_eq!(d, b"abc\r".to_vec());
}

#[test]
fn split_fields_splits_on_tabs() {
    let fields = split_fields(b"a\tbb\t\tc", 9);
    let views: Vec<&[u8]> = fields.iter().map(|f| f.as_slice()).collect();
    assert_eq!(views, vec![&b"a"[..], &b"bb"[..], &b""[..], &b"c"[..]]);
    let single = split_fields(b"", 9);
    assert_eq!(single.len(), 1);
    assert_eq!(single[0], b"".to_vec());
}

#[test]
fn cell_indexing_floors_and_centroid_stays_in_cell() {
    let key = RegionKey::from_lat_lon(12_300_000, 45_600_000, 1_000_000);
    assert_eq!(key.lat_idx, 12);
    assert_eq!(key.lon_idx, 45);
    let c = key.centroid2(1_000_000);
    assert_eq!(c.0, 25_000_000);
    assert_eq!(c.1, 91_000_000);
    // boundary value belongs to the cell with the lower index times floor
    let edge = RegionKey::from_lat_lon(-12_300_000, 2_000_000, 1_000_000);
    assert_eq!(edge.lat_idx, -13);
    assert_eq!(edge.lon_idx, 2);
}

#[test]
fn counts_fold_tracks_observations_individuals_years() {
    let mut c = Counts { observations: 0, individuals: 0, years: 0 };
    c.count_observation(3, 2015, 2020);
    c.count_observation(2, 2016, 2020);
    c.count_observation(1, 2015, 2020);
    assert_eq!(c.observations, 3);
    assert_eq!(c.individuals, 6);
    assert_eq!(c.num_years(), 2);
    // a year far outside the mask's width leaves the mask unchanged
    let years_before = c.years;
    c.count_observation(1, 1900, 2020);
    assert_eq!(c.years, years_before);
    assert_eq!(c.observations, 4);
    // the individual total saturates instead of wrapping
    let mut d = Counts { observations: 0, individuals: u64::MAX - 1, years: 0 };
    d.count_observation(5, 2019, 2020);
    assert_eq!(d.individuals, u64::MAX);
}

#[test]
fn ranking_sorts_descending_and_keeps_ties() {
    let entries = vec![
        (b"a".to_vec(), 3u64),
        (b"b".to_vec(), 9u64),
        (b"c".to_vec(), 3u64),
        (b"d".to_vec(), 7u64),
    ];
    let ranked = sort_desc(entries);
    let counts: Vec<u64> = ranked.iter().map(|e| e.1).collect();
    assert_eq!(counts, vec![9, 7, 3, 3]);
    let names: Vec<Vec<u8>> = ranked.iter().map(|e| e.0.clone()).collect();
    // both tied species appear exactly once each
    assert_eq!(names.iter().filter(|n| n.as_slice() == b"a").count(), 1);
    assert_eq!(names.iter().filter(|n| n.as_slice() == b"c").count(), 1);
}

#[test]
fn mapping_text_is_braced_quoted_and_comma_joined() {
    let empty: Vec<(Vec<u8>, u64)> = vec![];
    assert_eq!(counts_to_string(&empty), b"{}".to_vec());
    let one = vec![(b"Corvus corax".to_vec(), 5u64)];
    assert_eq!(counts_to_string(&one), b"{\"Corvus corax\":5}".to_vec());
    let two = vec![(b"a".to_vec(), 2u64), (b"b".to_vec(), 1u64)];
    assert_eq!(counts_to_string(&two), b"{\"a\":2,\"b\":1}".to_vec());
}
