use vodcatalog::catalog::{
    default_catcher, entry, entry_path, get_entries, get_json, index, is_entry_file, lists,
    ApiError, DirFile, FileRead,
};
use vodcatalog::duration::Span;
use vodcatalog::json::Scalar;
use vodcatalog::record::{entry_from_fields, get_entry, Timestamp};

fn file(name: &str, text: &str) -> DirFile {
    DirFile { name: name.to_string(), text: Some(text.to_string()) }
}

fn record(title: &str, created: &str, extra: &str) -> String {
    format!(
        "{{\"title\": \"{}\", \"created_at\": \"{}\", \"duration\": 90{}}}",
        title, created, extra
    )
}

#[test]
fn loads_entry_with_defaults() {
    let e = get_entry("a", &record("First", "2024-01-01T00:00:00Z", "")).unwrap();
    assert_eq!(e.id, "a");
    assert_eq!(e.title, "First");
    assert_eq!(e.description, "");
    assert_eq!(e.created_at, Timestamp { secs: 1_704_067_200, nanos: 0 });
    assert_eq!(e.duration, Span { secs: 90, nanos: 0 });
    assert_eq!(e.hidden, None);
}

#[test]
fn loads_entry_with_all_fields() {
    let text = "{\"title\": \"T\", \"description\": \"D\", \"created_at\": \"2024-01-01T01:00:00+01:00\", \"duration\": \"1h1m1s\", \"hidden\": false}";
    let e = get_entry("b", text).unwrap();
    assert_eq!(e.description, "D");
    assert_eq!(e.created_at, Timestamp { secs: 1_704_067_200, nanos: 0 });
    assert_eq!(e.duration, Span { secs: 3661, nanos: 0 });
    assert_eq!(e.hidden, Some(false));
}

#[test]
fn rejects_invalid_entries() {
    assert!(get_entry("x", "not json").is_none());
    assert!(get_entry("x", "[1, 2]").is_none());
    assert!(get_entry("x", "{\"created_at\": \"2024-01-01T00:00:00Z\", \"duration\": 1}").is_none());
    assert!(get_entry("x", &record("T", "yesterday", "")).is_none());
    assert!(get_entry("x", &record("T", "2024-01-01T00:00:00Z", ", \"hidden\": 1")).is_none());
    assert!(get_entry("x", "{\"title\": \"T\", \"created_at\": \"2024-01-01T00:00:00Z\", \"duration\": \"soon\"}").is_none());
    assert!(get_entry("x", "{\"title\": \"T\", \"created_at\": \"2024-01-01T00:00:00Z\"}").is_none());
}

#[test]
fn null_hidden_counts_as_absent() {
    let e = get_entry("n", &record("T", "2024-01-01T00:00:00Z", ", \"hidden\": null")).unwrap();
    assert_eq!(e.hidden, None);
}

#[test]
fn builds_entry_from_fields() {
    let fields = vec![
        ("title".to_string(), Scalar::Text("T".to_string())),
        ("created_at".to_string(), Scalar::Text("1970-01-01T00:00:10Z".to_string())),
        ("duration".to_string(), Scalar::Number("2.5".to_string())),
        ("hidden".to_string(), Scalar::Bool(true)),
    ];
    let e = entry_from_fields("f", &fields).unwrap();
    assert_eq!(e.created_at, Timestamp { secs: 10, nanos: 0 });
    assert_eq!(e.duration, Span { secs: 2, nanos: 500_000_000 });
    assert_eq!(e.hidden, Some(true));
    let nested = vec![("title".to_string(), Scalar::Nested)];
    assert!(entry_from_fields("f", &nested).is_none());
}

#[test]
fn recognises_entry_files() {
    assert!(is_entry_file("a.json"));
    assert!(!is_entry_file("x.meta.json"));
    assert!(!is_entry_file(".json"));
    assert!(!is_entry_file("a.txt"));
    assert!(!is_entry_file("json"));
}

#[test]
fn listing_skips_hidden_broken_and_sidecar_files() {
    let files = vec![
        file("a.json", &record("A", "2024-01-01T00:00:00Z", "")),
        file("h.json", &record("H", "2024-02-01T00:00:00Z", ", \"hidden\": true")),
        file("v.json", &record("V", "2024-03-01T00:00:00Z", ", \"hidden\": false")),
        file("broken.json", "{"),
        file("x.meta.json", &record("M", "2024-04-01T00:00:00Z", "")),
        file("notes.txt", &record("N", "2024-05-01T00:00:00Z", "")),
        DirFile { name: "gone.json".to_string(), text: None },
    ];
    let ids: Vec<String> = get_entries(&files).into_iter().map(|e| e.id).collect();
    assert_eq!(ids, vec!["v".to_string(), "a".to_string()]);
}

#[test]
fn listing_is_newest_first() {
    let files = vec![
        file("old.json", &record("O", "2020-01-01T00:00:00Z", "")),
        file("new.json", &record("N", "2023-06-01T12:00:00Z", "")),
        file("mid.json", &record("M", "2021-01-01T00:00:00Z", "")),
        file("mid2.json", &record("M2", "2021-01-01T00:00:00.5Z", "")),
    ];
    let listed = get_entries(&files);
    let ids: Vec<&str> = listed.iter().map(|e| e.id.as_str()).collect();
    assert_eq!(ids, vec!["new", "mid2", "mid", "old"]);
    for w in listed.windows(2) {
        assert!(w[0].created_at.not_before(&w[1].created_at));
    }
}

#[test]
fn empty_directory_lists_nothing() {
    assert!(get_entries(&Vec::new()).is_empty());
}

#[test]
fn unreadable_directory_is_a_scan_error() {
    let r = lists(None);
    assert_eq!(r.err(), Some(ApiError::ScanError));
    assert_eq!(ApiError::ScanError.code(), 500);
}

#[test]
fn get_json_uses_stem_as_id() {
    let e = get_json(&file("clip1.json", &record("C", "2024-01-01T00:00:00Z", ""))).unwrap();
    assert_eq!(e.id, "clip1");
    assert!(get_json(&file("clip1.meta.json", &record("C", "2024-01-01T00:00:00Z", ""))).is_none());
}

#[test]
fn missing_entry_is_not_found() {
    let r = entry("missing", &FileRead::Missing);
    assert_eq!(r.as_ref().err(), Some(&ApiError::NotFound));
    assert_eq!(ApiError::NotFound.code(), 404);
}

#[test]
fn broken_entry_is_load_error() {
    let r = entry("broken", &FileRead::Text("{not json".to_string()));
    assert_eq!(r.as_ref().err(), Some(&ApiError::LoadError));
    assert_eq!(ApiError::LoadError.code(), 500);
    let u = entry("broken", &FileRead::Unreadable);
    assert_eq!(u.err(), Some(ApiError::LoadError));
}

#[test]
fn hidden_entry_is_still_found() {
    let text = record("Secret", "2024-01-01T00:00:00Z", ", \"hidden\": true");
    let e = entry("hiddenone", &FileRead::Text(text.clone())).unwrap();
    assert_eq!(e.id, "hiddenone");
    assert_eq!(e.hidden, Some(true));
    let listed = get_entries(&vec![file("hiddenone.json", &text)]);
    assert!(listed.is_empty());
}

#[test]
fn entry_paths_and_collections() {
    assert_eq!(entry_path("vods", "abc"), "vods/abc.json");
    assert_eq!(index(), vec!["vods", "highlights", "clips", "rplay"]);
    assert_eq!(default_catcher(404).error, 404);
}
