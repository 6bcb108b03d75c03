use geotagger::autocomplete::{
    completion, contains_text, matching_names, FileSystemAutocomplete, TimezoneAutocomplete,
};

#[test]
fn completion_prefers_the_highlighted_suggestion() {
    let s = vec!["a".to_string(), "b".to_string()];
    assert_eq!(completion(Some("x".to_string()), &s), Some("x".to_string()));
    assert_eq!(completion(None, &s), None);
    assert_eq!(completion(None, &vec!["only".to_string()]), Some("only".to_string()));
    assert_eq!(completion(None, &Vec::new()), None);
}

#[test]
fn file_system_kinds() {
    let f = FileSystemAutocomplete::files();
    assert!(f.accepts(false, true));
    assert!(!f.accepts(true, false));
    let d = FileSystemAutocomplete::directories();
    assert!(d.accepts(true, false));
    assert!(!d.accepts(false, true));
    let b = FileSystemAutocomplete::both();
    assert!(b.accepts(true, false) && b.accepts(false, true));
    let _ = TimezoneAutocomplete;
}

#[test]
fn substring_search() {
    assert!(contains_text("europe/london", "lon"));
    assert!(contains_text("abc", ""));
    assert!(!contains_text("ab", "abc"));
    assert!(!contains_text("europe/paris", "lon"));
}

#[test]
fn time_zone_names_match_ignoring_case() {
    let names = vec![
        "Europe/London".to_string(),
        "America/New_York".to_string(),
        "Europe/Paris".to_string(),
    ];
    assert_eq!(matching_names(&names, "LON"), vec!["Europe/London".to_string()]);
    assert_eq!(matching_names(&names, "europe"), vec!["Europe/London".to_string(), "Europe/Paris".to_string()]);
    assert_eq!(matching_names(&names, ""), names);
}

use geotagger::autocomplete::{ends_with, le_ignoring_case, sort_ignoring_case, starts_with, PathEntry};

fn entry(name: &str, is_dir: bool) -> PathEntry {
    PathEntry {
        name: name.to_string(),
        path: format!("/photos/{}", name),
        is_dir,
        is_file: !is_dir,
    }
}

#[test]
fn prefixes_and_suffixes() {
    assert!(starts_with("IMG_0001.jpg", "IMG"));
    assert!(starts_with("IMG", ""));
    assert!(!starts_with("IM", "IMG"));
    assert!(!starts_with("img_0001.jpg", "IMG"));
    assert!(ends_with("/photos/", "/"));
    assert!(!ends_with("/photos", "/"));
    assert!(!ends_with("", "/"));
}

#[test]
fn ordering_ignores_case() {
    assert!(le_ignoring_case("apple", "Banana"));
    assert!(!le_ignoring_case("banana", "Apple"));
    assert!(le_ignoring_case("ab", "AB"));
    assert!(le_ignoring_case("a", "ab"));
    let sorted = sort_ignoring_case(vec![
        "delta".to_string(),
        "Bravo".to_string(),
        "charlie".to_string(),
        "alpha".to_string(),
        "B".to_string(),
    ]);
    assert_eq!(sorted, vec!["alpha", "B", "Bravo", "charlie", "delta"]);
    assert_eq!(sort_ignoring_case(Vec::new()), Vec::<String>::new());
    let stable = sort_ignoring_case(vec!["b".to_string(), "A".to_string(), "B".to_string(), "a".to_string()]);
    assert_eq!(stable, vec!["A", "a", "b", "B"]);
}

#[test]
fn path_suggestions_filter_and_sort() {
    let entries = vec![
        entry("Trip", true),
        entry("timeline.json", false),
        entry("Takeout", true),
        entry("notes.txt", false),
        entry("travel.jpg", false),
    ];
    let files = FileSystemAutocomplete::files().suggestions("t", &entries, "/");
    assert_eq!(files, vec!["/photos/timeline.json", "/photos/travel.jpg"]);
    let dirs = FileSystemAutocomplete::directories().suggestions("T", &entries, "/");
    assert_eq!(dirs, vec!["/photos/Takeout/", "/photos/Trip/"]);
    let all = FileSystemAutocomplete::both().suggestions("", &entries, "/");
    assert_eq!(
        all,
        vec!["/photos/notes.txt", "/photos/Takeout/", "/photos/timeline.json", "/photos/travel.jpg", "/photos/Trip/"]
    );
}

#[test]
fn directory_paths_keep_a_single_separator() {
    let entries = vec![PathEntry {
        name: "x".to_string(),
        path: "/x/".to_string(),
        is_dir: true,
        is_file: false,
    }];
    assert_eq!(FileSystemAutocomplete::both().suggestions("", &entries, "/"), vec!["/x/"]);
}
