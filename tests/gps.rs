use geotagger::gps::{
    altitude_parts, decimal_to_dms, get_latitude_ref, get_longitude_ref, is_lower_photo_extension,
    is_photo_extension,
};
use geotagger::instant::Instant;
use geotagger::timeline::{LocationData, TimelineData};

#[test]
fn degrees_minutes_seconds() {
    // 54.7973628 degrees = 54 deg 47 min 50.50608 s
    assert_eq!(decimal_to_dms(54_797_362_800), (54, 47, 50_506_080_000));
    assert_eq!(decimal_to_dms(-1_592_143_100), (1, 35, 31_715_160_000));
    assert_eq!(decimal_to_dms(0), (0, 0, 0));
    assert_eq!(decimal_to_dms(i64::MIN).0, 9_223_372_036);
}

#[test]
fn hemisphere_letters() {
    assert_eq!(get_latitude_ref(1), "N");
    assert_eq!(get_latitude_ref(0), "N");
    assert_eq!(get_latitude_ref(-1), "S");
    assert_eq!(get_longitude_ref(5), "E");
    assert_eq!(get_longitude_ref(-5), "W");
}

#[test]
fn altitude_above_and_below_sea_level() {
    assert_eq!(altitude_parts(75_200_000_000), (75_200_000_000, 0));
    assert_eq!(altitude_parts(-3_000_000_000), (3_000_000_000, 1));
    assert_eq!(altitude_parts(0), (0, 0));
}

#[test]
fn photo_extensions() {
    assert!(is_photo_extension("JPG"));
    assert!(is_photo_extension("jpeg"));
    assert!(is_photo_extension("Png"));
    assert!(!is_photo_extension("gif"));
    assert!(!is_photo_extension(""));
    assert!(is_lower_photo_extension("jpg"));
    assert!(!is_lower_photo_extension("JPG"));
}

#[test]
fn lookups_under_their_other_names() {
    let timeline = TimelineData::new(Vec::new(), Vec::new());
    assert_eq!(timeline.get_location_at(&Instant { seconds: 0, nanos: 0 }), None);
    assert_eq!(LocationData::parse_lat_lng("1, 2"), Some((1_000_000_000, 2_000_000_000)));
}
