use geotagger::error::GeoError;
use geotagger::instant::Instant;
use geotagger::timeline::{RawSignal, SemanticSegment, Timeline, TimelinePoint};

fn at(text: &str) -> Instant {
    Instant::parse_rfc3339(text).unwrap()
}

fn position(lat_lng: &str, altitude: Option<i64>, time: &str) -> RawSignal {
    RawSignal::Position {
        lat_lng: lat_lng.to_string(),
        altitude_meters: altitude,
        timestamp: time.to_string(),
    }
}

fn waypoint(lat_lng: &str, time: &str) -> TimelinePoint {
    TimelinePoint { point: lat_lng.to_string(), time: time.to_string() }
}

fn path(points: Vec<TimelinePoint>) -> SemanticSegment {
    SemanticSegment::Path { timeline_path: points }
}

#[test]
fn empty_streams_are_unresolved() {
    let timeline = Timeline::new(Vec::new(), Vec::new());
    let query = at("2025-07-11T16:21:00.000+01:00");
    assert_eq!(timeline.get_point_at(&query), Err(GeoError::Unresolved));
    assert_eq!(timeline.get_location_at(&query), None);
    assert!(timeline.get_line_from_raw_signals(&query).is_none());
    assert!(timeline.get_line_from_semantic_segments(&query).is_none());
}

#[test]
fn raw_signals_give_the_scenario_position() {
    let timeline = Timeline::new(
        Vec::new(),
        vec![
            position("55.0°, -1.5°", Some(75_000_000_000), "2025-07-11T16:20:00.000+01:00"),
            RawSignal::WifiScan,
            position("57.0°, -2.0°", Some(76_000_000_000), "2025-07-11T16:25:00.000+01:00"),
            RawSignal::Activity,
        ],
    );
    let query = at("2025-07-11T16:21:00.000+01:00");
    let line = timeline.get_line_from_raw_signals(&query).unwrap();
    assert_eq!(line.start.relative_seconds, -60);
    assert_eq!(line.end.relative_seconds, 240);
    let p = timeline.get_point_at(&query).unwrap();
    assert_eq!(p.lat, 55_400_000_000);
    assert_eq!(p.lng, -1_600_000_000);
    assert_eq!(p.altitude, Some(75_200_000_000));
    assert_eq!(p.timestamp, query);
    assert_eq!(p.relative_seconds, 0);
    assert_eq!(timeline.get_location_at(&query), Some(p));
}

#[test]
fn raw_signals_take_priority_over_paths() {
    let timeline = Timeline::new(
        vec![path(vec![
            waypoint("10.0°, 10.0°", "2025-07-11T16:20:30.000+01:00"),
            waypoint("20.0°, 20.0°", "2025-07-11T16:21:30.000+01:00"),
        ])],
        vec![
            position("55.0°, -1.5°", None, "2025-07-11T16:20:00.000+01:00"),
            position("57.0°, -2.0°", None, "2025-07-11T16:25:00.000+01:00"),
        ],
    );
    let query = at("2025-07-11T16:21:00.000+01:00");
    assert!(timeline.get_line_from_semantic_segments(&query).is_some());
    let p = timeline.get_point_at(&query).unwrap();
    assert_eq!(p.lat, 55_400_000_000);
    assert_eq!(p.lng, -1_600_000_000);
}

#[test]
fn paths_are_used_when_raw_signals_fall_short() {
    let timeline = Timeline::new(
        vec![
            SemanticSegment::Activity,
            path(vec![waypoint("50.0°, 5.0°", "2023-08-29T12:37:00.000+01:00")]),
            SemanticSegment::PlaceVisit,
            path(vec![
                waypoint("not a coordinate", "2023-08-29T12:37:30.000+01:00"),
                waypoint("52.0°, 7.0°", "not a time"),
                waypoint("51.0°, 6.0°", "2023-08-29T12:37:40.000+01:00"),
            ]),
            SemanticSegment::Memory,
        ],
        vec![position("54.0°, -1.0°", Some(1), "2023-08-29T12:37:00.000+01:00")],
    );
    let query = at("2023-08-29T12:37:20.000+01:00");
    assert!(timeline.get_line_from_raw_signals(&query).is_none());
    let line = timeline.get_line_from_semantic_segments(&query).unwrap();
    assert_eq!(line.start.relative_seconds, -20);
    assert_eq!(line.end.relative_seconds, 20);
    let p = timeline.get_point_at(&query).unwrap();
    assert_eq!(p.lat, 50_500_000_000);
    assert_eq!(p.lng, 5_500_000_000);
    assert_eq!(p.altitude, None);
}

#[test]
fn a_fix_at_the_query_instant_is_returned_exactly() {
    let timeline = Timeline::new(
        Vec::new(),
        vec![
            position("54.7973628°, -1.5921431°", Some(75_599_998_474), "2025-08-11T16:25:50.000+01:00"),
            position("54.7973700°, -1.5921500°", Some(75_000_000_000), "2025-08-11T16:26:00.000+01:00"),
            position("54.7973675°, -1.592149°", Some(75_599_998_474), "2025-08-11T16:26:39.000+01:00"),
        ],
    );
    let p = timeline.get_point_at(&at("2025-08-11T16:26:00.000+01:00")).unwrap();
    assert_eq!(p.lat, 54_797_370_000);
    assert_eq!(p.lng, -1_592_150_000);
    assert_eq!(p.altitude, Some(75_000_000_000));
}

#[test]
fn query_outside_history_is_unresolved() {
    let timeline = Timeline::new(
        vec![path(vec![waypoint("50.0°, 5.0°", "2023-08-29T12:37:00.000+01:00")])],
        vec![position("54.0°, -1.0°", None, "2023-08-29T12:38:00.000+01:00")],
    );
    let query = at("2024-01-01T00:00:00Z");
    assert_eq!(timeline.get_point_at(&query), Err(GeoError::Unresolved));
}
