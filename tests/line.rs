use geotagger::error::GeoError;
use geotagger::instant::Instant;
use geotagger::line::{Line, LineBuilder, Point};
use geotagger::timeline::Timeline;

fn fixed(x: f64) -> i64 {
    (x * 1e9).round() as i64
}

fn value(v: i64) -> f64 {
    v as f64 / 1e9
}

fn at(text: &str) -> Instant {
    Instant::parse_rfc3339(text).unwrap()
}

fn point(lat: f64, lng: f64, altitude: Option<f64>, time: &str, relative_seconds: i64) -> Point {
    Point {
        lat: fixed(lat),
        lng: fixed(lng),
        altitude: altitude.map(fixed),
        timestamp: at(time),
        relative_seconds,
    }
}

fn sample_line() -> Line {
    Line::new(
        point(55.0000000, -1.5000000, Some(75.0000000000000), "2025-07-11T16:20:00.000+01:00", -60),
        point(57.0000000, -2.0000000, Some(76.0000000000000), "2025-07-11T16:25:00.000+01:00", 240),
    )
}

#[test]
fn line_test_get_point_at() {
    let line = sample_line();
    let timestamp = at("2025-07-11T16:21:00.000+01:00");

    let location = line.get_point_at(&timestamp);

    assert!(location.is_ok());
    let location = location.unwrap();
    assert_eq!(value(location.lat), 55.4000000);
    assert_eq!(value(location.lng), -1.6000000);
    assert_eq!(location.altitude.map(value), Some(75.2000000000000));
    assert_eq!(location.relative_seconds, 0);
}

#[test]
fn test_get_location_between_points() {
    let line = sample_line();
    let locations = [Some(line.start), Some(line.end)];
    let timestamp = at("2025-07-11T16:21:00.000+01:00");

    let location = Timeline::get_location_between_points(&locations, &timestamp);

    assert!(location.is_some());
    let location = location.unwrap();
    assert_eq!(value(location.lat), 55.4000000);
    assert_eq!(value(location.lng), -1.6000000);
    assert_eq!(location.altitude.map(value), Some(75.2000000000000));
    assert_eq!(location.relative_seconds, 0);
}

#[test]
fn between_points_needs_both_sides() {
    let line = sample_line();
    let timestamp = at("2025-07-11T16:21:00.000+01:00");
    assert_eq!(Timeline::get_location_between_points(&[Some(line.start), None], &timestamp), None);
    assert_eq!(Timeline::get_location_between_points(&[None, Some(line.end)], &timestamp), None);
}

#[test]
fn interpolation_scenario_fifth_of_the_way() {
    let line = sample_line();
    let query = at("2025-07-11T16:21:00.000+01:00");
    let r = line.interpolate(&query);
    assert_eq!(r.lat, 55_400_000_000);
    assert_eq!(r.lng, -1_600_000_000);
    assert_eq!(r.altitude, Some(75_200_000_000));
    assert_eq!(r.timestamp, query);
    assert_eq!(r.relative_seconds, 0);
}

#[test]
fn interpolation_stays_between_the_ends() {
    let line = Line::new(
        point(10.0, 20.0, None, "2025-07-11T16:20:00.000+01:00", -7),
        point(9.0, 21.0, None, "2025-07-11T16:25:00.000+01:00", 3),
    );
    let r = line.interpolate(&at("2025-07-11T16:21:00.000+01:00"));
    // progress 7 / 10
    assert_eq!(r.lat, 9_300_000_000);
    assert_eq!(r.lng, 20_700_000_000);
    assert!(r.lat >= line.end.lat && r.lat <= line.start.lat);
    assert!(r.lng >= line.start.lng && r.lng <= line.end.lng);
}

#[test]
fn interpolation_rounds_down() {
    let line = Line::new(
        Point { lat: 0, lng: 0, altitude: None, timestamp: at("2025-07-11T16:20:00Z"), relative_seconds: -1 },
        Point { lat: 1, lng: -1, altitude: None, timestamp: at("2025-07-11T16:20:03Z"), relative_seconds: 2 },
    );
    let r = line.interpolate(&at("2025-07-11T16:20:01Z"));
    // one third of 1 and of -1, rounded down
    assert_eq!(r.lat, 0);
    assert_eq!(r.lng, -1);
}

#[test]
fn one_side_without_altitude_gives_none() {
    let line = Line::new(
        point(55.0, -1.5, Some(75.0), "2025-07-11T16:20:00.000+01:00", -60),
        point(57.0, -2.0, None, "2025-07-11T16:25:00.000+01:00", 240),
    );
    let r = line.interpolate(&at("2025-07-11T16:21:00.000+01:00"));
    assert_eq!(r.altitude, None);
    assert_eq!(r.lat, 55_400_000_000);

    let line = Line::new(
        point(55.0, -1.5, None, "2025-07-11T16:20:00.000+01:00", -60),
        point(57.0, -2.0, Some(76.0), "2025-07-11T16:25:00.000+01:00", 240),
    );
    assert_eq!(line.interpolate(&at("2025-07-11T16:21:00.000+01:00")).altitude, None);
}

#[test]
fn degenerate_bracket_returns_its_coordinates() {
    let line = Line::new(
        point(51.5, -0.12, Some(11.0), "2025-07-11T16:20:00.000+01:00", 0),
        point(52.0, 1.0, Some(12.0), "2025-07-11T16:20:00.000+01:00", 0),
    );
    let query = at("2025-07-11T16:20:00.000+01:00");
    let r = line.interpolate(&query);
    assert_eq!(r.lat, fixed(51.5));
    assert_eq!(r.lng, fixed(-0.12));
    assert_eq!(r.altitude, Some(fixed(11.0)));
    assert_eq!(r.relative_seconds, 0);
    assert_eq!(line.get_point_at(&query), Ok(r));
}

#[test]
fn degenerate_pair_away_from_zero() {
    let start = point(51.5, -0.12, Some(11.0), "2025-07-11T16:20:00.000+01:00", -30);
    let end = point(52.0, 1.0, None, "2025-07-11T16:20:00.000+01:00", -30);
    let query = at("2025-07-11T16:20:30.000+01:00");
    let r = Timeline::get_location_between_points(&[Some(start), Some(end)], &query).unwrap();
    assert_eq!(r.lat, fixed(51.5));
    assert_eq!(r.lng, fixed(-0.12));
    assert_eq!(r.altitude, None);
    assert_eq!(Line::new(start, end).interpolate(&query), r);
}

#[test]
fn strict_lookup_refuses_to_extrapolate() {
    let line = sample_line();
    assert_eq!(line.get_point_at(&at("2025-07-11T16:26:00.000+01:00")), Err(GeoError::OutOfBounds));
    assert_eq!(line.get_point_at(&at("2025-07-11T16:19:59.999+01:00")), Err(GeoError::OutOfBounds));
    assert!(line.get_point_at(&at("2025-07-11T16:25:00.000+01:00")).is_ok());
}

#[test]
fn builder_keeps_nearest_on_each_side() {
    let mut b = LineBuilder::new();
    b.add_point(point(1.0, 1.0, None, "2025-07-11T16:19:00Z", -120));
    b.add_point(point(2.0, 2.0, None, "2025-07-11T16:20:00Z", -60));
    b.add_point(point(3.0, 3.0, None, "2025-07-11T16:18:00Z", -180));
    b.add_point(point(4.0, 4.0, None, "2025-07-11T16:25:00Z", 240));
    b.add_point(point(5.0, 5.0, None, "2025-07-11T16:22:00Z", 60));
    b.add_point(point(6.0, 6.0, None, "2025-07-11T16:23:00Z", 120));
    let line = b.build().unwrap();
    assert_eq!(line.start.lat, fixed(2.0));
    assert_eq!(line.end.lat, fixed(5.0));
}

#[test]
fn builder_ties_go_to_the_last() {
    let mut b = LineBuilder::new();
    b.add_point(point(1.0, 1.0, None, "2025-07-11T16:20:00Z", -60));
    b.add_point(point(2.0, 2.0, None, "2025-07-11T16:20:00Z", -60));
    b.add_point(point(3.0, 3.0, None, "2025-07-11T16:25:00Z", 60));
    b.add_point(point(4.0, 4.0, None, "2025-07-11T16:25:00Z", 60));
    let line = b.build().unwrap();
    assert_eq!(line.start.lat, fixed(2.0));
    assert_eq!(line.end.lat, fixed(4.0));
}

#[test]
fn builder_exact_match_fills_both_sides() {
    let mut b = LineBuilder::new();
    b.add_point(point(1.0, 1.0, None, "2025-07-11T16:19:00Z", -60));
    b.add_point(point(2.0, 2.0, None, "2025-07-11T16:20:00Z", 0));
    let line = b.build().unwrap();
    assert_eq!(line.start, line.end);
    assert_eq!(line.start.lat, fixed(2.0));
}

#[test]
fn builder_one_side_is_incomplete() {
    let mut b = LineBuilder::new();
    b.add_point(point(1.0, 1.0, None, "2025-07-11T16:19:00Z", -60));
    b.add_point(point(2.0, 2.0, None, "2025-07-11T16:18:00Z", -120));
    assert!(b.build().is_none());
    assert!(LineBuilder::new().build().is_none());
}

#[test]
fn builder_start_and_end_set_sides() {
    let mut b = LineBuilder::new();
    b.start(point(1.0, 1.0, None, "2025-07-11T16:19:00Z", -60))
        .end(point(2.0, 2.0, None, "2025-07-11T16:21:00Z", 60));
    let line = b.build().unwrap();
    assert_eq!(line.start.lat, fixed(1.0));
    assert_eq!(line.end.lat, fixed(2.0));
}
