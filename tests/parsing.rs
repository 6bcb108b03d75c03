use geotagger::error::GeoError;
use geotagger::instant::{seconds_between, Instant};
use geotagger::line::Point;

#[test]
fn instants_read_from_rfc3339() {
    let t = Instant::parse_rfc3339("2025-07-11T16:20:00.000+01:00").unwrap();
    assert_eq!(t, Instant { seconds: 1_752_247_200, nanos: 0 });
    let t = Instant::parse_rfc3339("2025-07-11T15:20:00.25Z").unwrap();
    assert_eq!(t, Instant { seconds: 1_752_247_200, nanos: 250_000_000 });
    assert_eq!(Instant::parse_rfc3339("2025-07-11 16:20"), None);
    assert_eq!(Instant::parse_rfc3339(""), None);
}

#[test]
fn leap_second_counts_toward_the_next_second() {
    let leap = Instant::parse_rfc3339("2016-12-31T23:59:60Z").unwrap();
    let next = Instant::parse_rfc3339("2017-01-01T00:00:00Z").unwrap();
    assert_eq!(leap, next);
}

#[test]
fn instants_from_unix_parts() {
    assert_eq!(Instant::from_unix(5, 999_999_999), Some(Instant { seconds: 5, nanos: 999_999_999 }));
    assert_eq!(Instant::from_unix(5, 1_000_000_000), None);
    assert!(Instant { seconds: 1, nanos: 0 }.is_before(&Instant { seconds: 1, nanos: 1 }));
    assert!(!Instant { seconds: 2, nanos: 0 }.is_before(&Instant { seconds: 1, nanos: 999_999_999 }));
}

#[test]
fn offsets_round_to_the_nearest_second() {
    let q = Instant { seconds: 100, nanos: 0 };
    assert_eq!(seconds_between(&Instant { seconds: 160, nanos: 0 }, &q), 60);
    assert_eq!(seconds_between(&Instant { seconds: 40, nanos: 0 }, &q), -60);
    assert_eq!(seconds_between(&Instant { seconds: 100, nanos: 400_000_000 }, &q), 0);
    assert_eq!(seconds_between(&Instant { seconds: 100, nanos: 500_000_000 }, &q), 1);
    assert_eq!(seconds_between(&Instant { seconds: 99, nanos: 500_000_000 }, &q), -1);
    assert_eq!(seconds_between(&Instant { seconds: 99, nanos: 600_000_000 }, &q), 0);
}

#[test]
fn coordinates_in_billionths() {
    assert_eq!(Point::parse_lat_lng("54.7973628°, -1.5921431°"), Some((54_797_362_800, -1_592_143_100)));
    assert_eq!(Point::parse_lat_lng("  12.5 ,-0.25  "), Some((12_500_000_000, -250_000_000)));
    assert_eq!(Point::parse_lat_lng("+1.,.5"), Some((1_000_000_000, 500_000_000)));
    assert_eq!(Point::parse_lat_lng("90, -180"), Some((90_000_000_000, -180_000_000_000)));
    assert_eq!(
        Point::parse_lat_lng("0.1234567891, -0.1234567899"),
        Some((123_456_789, -123_456_789))
    );
}

#[test]
fn malformed_coordinates_are_refused() {
    assert_eq!(Point::parse_lat_lng("54.1"), None);
    assert_eq!(Point::parse_lat_lng("1, 2, 3"), None);
    assert_eq!(Point::parse_lat_lng("abc, 1"), None);
    assert_eq!(Point::parse_lat_lng(".,1"), None);
    assert_eq!(Point::parse_lat_lng(", 1"), None);
    assert_eq!(Point::parse_lat_lng("1.2.3, 1"), None);
    assert_eq!(Point::parse_lat_lng("1 2, 1"), None);
    assert_eq!(Point::parse_lat_lng("9223372037, 0"), None);
    assert_eq!(Point::parse_lat_lng("9223372036.854775807, 0"), Some((i64::MAX, 0)));
    assert_eq!(Point::parse_lat_lng("-9223372036.854775807, 0"), Some((-i64::MAX, 0)));
    assert_eq!(Point::parse_lat_lng("9223372036.854775808, 0"), None);
}

#[test]
fn coordinates_with_exponents() {
    assert_eq!(Point::parse_lat_lng("1e1,2"), Some((10_000_000_000, 2_000_000_000)));
    assert_eq!(Point::parse_lat_lng("1e5, 2"), Some((100_000_000_000_000, 2_000_000_000)));
    assert_eq!(Point::parse_lat_lng("1.5E-3, -2e+2"), Some((1_500_000, -200_000_000_000)));
    assert_eq!(Point::parse_lat_lng(".5e1, 5.e-1"), Some((5_000_000_000, 500_000_000)));
    assert_eq!(Point::parse_lat_lng("5e-10, 0"), Some((0, 0)));
    assert_eq!(Point::parse_lat_lng("-123456789e-17, 0"), Some((-1, 0)));
    assert_eq!(Point::parse_lat_lng("0e999999999999999999999999, 1"), Some((0, 1_000_000_000)));
    assert_eq!(Point::parse_lat_lng("7e-99999999999999999999999, 1"), Some((0, 1_000_000_000)));
    assert_eq!(Point::parse_lat_lng("1e10, 0"), None);
    assert_eq!(Point::parse_lat_lng("1e99999999999999999999999, 0"), None);
    assert_eq!(Point::parse_lat_lng("9.223372036854775807e9, 0"), Some((i64::MAX, 0)));
}

#[test]
fn malformed_exponents_are_refused() {
    assert_eq!(Point::parse_lat_lng("1e, 2"), None);
    assert_eq!(Point::parse_lat_lng("e5, 2"), None);
    assert_eq!(Point::parse_lat_lng("1e5.0, 2"), None);
    assert_eq!(Point::parse_lat_lng("1e+, 2"), None);
    assert_eq!(Point::parse_lat_lng("1e2e3, 2"), None);
    assert_eq!(Point::parse_lat_lng("inf, 2"), None);
    assert_eq!(Point::parse_lat_lng("nan, 2"), None);
}

#[test]
fn records_become_points() {
    let query = Instant::parse_rfc3339("2025-07-11T16:21:00.000+01:00").unwrap();
    let p = Point::from_timeline(
        "55.0°, -1.5°",
        &"2025-07-11T16:20:00.000+01:00".to_string(),
        &Some(75_000_000_000),
        &query,
    )
    .unwrap();
    assert_eq!(p.lat, 55_000_000_000);
    assert_eq!(p.lng, -1_500_000_000);
    assert_eq!(p.altitude, Some(75_000_000_000));
    assert_eq!(p.relative_seconds, -60);
    assert_eq!(p.timestamp, Instant { seconds: 1_752_247_200, nanos: 0 });
}

#[test]
fn malformed_records_are_reported() {
    let query = Instant::parse_rfc3339("2025-07-11T16:21:00.000+01:00").unwrap();
    let bad_time = Point::from_timeline("55.0, -1.5", &"yesterday".to_string(), &None, &query);
    assert_eq!(bad_time, Err(GeoError::MalformedTimestamp));
    let bad_place = Point::from_timeline("somewhere", &"2025-07-11T16:20:00Z".to_string(), &None, &query);
    assert_eq!(bad_place, Err(GeoError::MalformedCoordinate));
    let both_bad = Point::from_timeline("somewhere", &"yesterday".to_string(), &None, &query);
    assert_eq!(both_bad, Err(GeoError::MalformedTimestamp));
}

#[test]
fn errors_describe_themselves() {
    assert_eq!(GeoError::OutOfBounds.message(), "Timestamp is out of bounds");
    assert_eq!(GeoError::Unresolved.message(), "No valid line found");
    assert_eq!(GeoError::MalformedCoordinate.message(), "Invalid latitude/longitude format");
    assert_eq!(GeoError::MalformedTimestamp.message(), "Invalid timestamp format");
}
