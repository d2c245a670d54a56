use refac::pattern::CompiledPattern;
use refac::scrap::{
    classify_find, default_archive_name, find_match_label, find_unique_name, format_duration,
    format_size, gitignore_addition, is_archived_name, is_hidden_name, parse_sort_key,
    restore_destination, sort_listing, unique_candidate, FindMatch, ListingEntry, ScrapEntry,
    ScrapMetadata, SortKey, Timestamp,
};
use std::collections::HashSet;

/// The size text computed with `f64` division and `{:.1}` formatting.
fn float_size_text(bytes: u64) -> String {
    const UNITS: &[&str] = &["B", "KB", "MB", "GB", "TB"];
    let mut size = bytes as f64;
    let mut unit_idx = 0;
    while size >= 1024.0 && unit_idx < UNITS.len() - 1 {
        size /= 1024.0;
        unit_idx += 1;
    }
    if unit_idx == 0 {
        format!("{} {}", size as u64, UNITS[unit_idx])
    } else {
        format!("{:.1} {}", size, UNITS[unit_idx])
    }
}

#[test]
fn test_format_size() {
    assert_eq!(format_size(512), "512 B");
    assert_eq!(format_size(1024), "1.0 KB");
    assert_eq!(format_size(1536), "1.5 KB");
    assert_eq!(format_size(1048576), "1.0 MB");
    assert_eq!(format_size(1073741824), "1.0 GB");
}

#[test]
fn format_size_agrees_with_float_formatting() {
    let mut samples: Vec<u64> = vec![
        0, 1, 1023, 1025, 1075, 1126, 1127, 1152, 1280, 1408, 2560, 3584, 10239, 10240,
        1048575, 1048576 * 5 / 4, 1073741823, 1099511627775, 1099511627776,
        1125899906842624, 1152921504606846976, u64::MAX, u64::MAX - 1, (1u64 << 53) + 1,
    ];
    for k in 0..64u32 {
        let p = 1u64 << k;
        samples.push(p);
        samples.push(p - 1);
        samples.push(p + p / 2);
        samples.push(p.wrapping_add(p / 4));
        samples.push(p.wrapping_mul(3) / 40);
    }
    for n in 0..5000u64 {
        samples.push(n * 51 + 7);
    }
    for b in samples {
        assert_eq!(format_size(b), float_size_text(b), "bytes = {}", b);
    }
}

#[test]
fn format_size_ties_round_to_even() {
    // 1.25 KB and 1.75 KB are exact halves at one decimal.
    assert_eq!(format_size(1280), float_size_text(1280));
    assert_eq!(format_size(1792), float_size_text(1792));
    assert_eq!(format_size(1023), "1023 B");
    assert_eq!(format_size(u64::MAX), "16777216.0 TB");
}

#[test]
fn format_duration_picks_the_largest_unit() {
    assert_eq!(format_duration(0), "just now");
    assert_eq!(format_duration(-5), "just now");
    assert_eq!(format_duration(59), "just now");
    assert_eq!(format_duration(60), "1 mins ago");
    assert_eq!(format_duration(3599), "59 mins ago");
    assert_eq!(format_duration(3600), "1 hours ago");
    assert_eq!(format_duration(86399), "23 hours ago");
    assert_eq!(format_duration(86400), "1 days ago");
    assert_eq!(format_duration(3 * 86400 + 5 * 3600), "3 days ago");
}

#[test]
fn test_find_unique_name() {
    let mut existing: HashSet<String> = HashSet::new();
    let unique = find_unique_name("test.txt", |n: &str| existing.contains(n)).unwrap();
    assert_eq!(unique, "test_1.txt");

    existing.insert("test_1.txt".to_string());
    let unique = find_unique_name("test.txt", |n: &str| existing.contains(n)).unwrap();
    assert_eq!(unique, "test_2.txt");
}

#[test]
fn unique_names_without_extension_and_exhaustion() {
    assert_eq!(unique_candidate("notes", 3), "notes_3");
    assert_eq!(unique_candidate("archive.tar.gz", 2), "archive.tar_2.gz");
    assert_eq!(unique_candidate(".bashrc", 1), ".bashrc_1");
    assert_eq!(find_unique_name("a.txt", |_n: &str| true), None);
    let last = find_unique_name("a.txt", |n: &str| n != "a_10000.txt");
    assert_eq!(last, Some("a_10000.txt".to_string()));
}

#[test]
fn test_update_gitignore_add_entry() {
    let contents = "*.log\ntarget/\n";
    let addition = gitignore_addition(contents).unwrap();
    let updated = format!("{}{}", contents, addition);
    assert!(updated.contains(".scrap/"));
    assert_eq!(updated, "*.log\ntarget/\n.scrap/\n");
}

#[test]
fn gitignore_addition_cases() {
    assert_eq!(gitignore_addition("*.log"), Some("\n.scrap/\n".to_string()));
    assert_eq!(gitignore_addition(""), Some(".scrap/\n".to_string()));
    assert_eq!(gitignore_addition("target/\n  .scrap/  \n"), None);
    assert_eq!(gitignore_addition(".scrap\r\n"), None);
    assert_eq!(gitignore_addition(".scrapbook\n"), Some(".scrap/\n".to_string()));
}

#[test]
fn restore_destination_choices() {
    // The recorded original path wins when no destination is given.
    assert_eq!(
        restore_destination("test.txt", None, Some("/tmp/x/original/test.txt"), "/cwd"),
        "/tmp/x/original/test.txt"
    );
    // Without metadata the item goes to the current directory.
    assert_eq!(restore_destination("test.txt", None, None, "/cwd"), "/cwd/test.txt");
    // A custom directory receives the item under its name.
    assert_eq!(
        restore_destination("test.txt", Some(("/tmp/custom", true)), Some("/o/test.txt"), "/cwd"),
        "/tmp/custom/test.txt"
    );
    // A custom path that is not a directory is the destination itself.
    assert_eq!(
        restore_destination("test.txt", Some(("/tmp/renamed.txt", false)), None, "/cwd"),
        "/tmp/renamed.txt"
    );
}

#[test]
fn hidden_and_archived_names() {
    assert!(is_hidden_name(".metadata.json"));
    assert!(!is_hidden_name("file.txt"));
    assert!(is_archived_name("file.txt"));
    assert!(is_archived_name(".metadata.json"));
    assert!(!is_archived_name(".DS_Store"));
    assert_eq!(default_archive_name("2024-01-31"), ".scrap-2024-01-31.tar.gz");
}

fn ts(secs: i64) -> Timestamp {
    Timestamp { secs, nanos: 0 }
}

#[test]
fn metadata_read_after_write() {
    let mut metadata = ScrapMetadata::new();
    assert!(metadata.is_empty());
    metadata.add_entry_at("test.txt", "/o/test.txt".to_string(), ts(100));
    let e = metadata.get_entry("test.txt").unwrap();
    assert_eq!(e.original_path, "/o/test.txt");
    assert_eq!(e.scrapped_name, "test.txt");
    assert_eq!(e.scrapped_at, ts(100));
    assert!(metadata.get_entry("other.txt").is_none());

    // Re-adding replaces.
    metadata.add_entry_at("test.txt", "/p/test.txt".to_string(), ts(200));
    assert_eq!(metadata.entries.len(), 1);
    assert_eq!(metadata.get_entry("test.txt").unwrap().original_path, "/p/test.txt");

    let removed = metadata.remove_entry("test.txt").unwrap();
    assert_eq!(removed.original_path, "/p/test.txt");
    assert!(metadata.is_empty());
    assert!(metadata.remove_entry("test.txt").is_none());
}

#[test]
fn add_entry_records_current_time() {
    let mut metadata = ScrapMetadata::new();
    metadata.add_entry("a.txt", "/o/a.txt".to_string());
    let e = metadata.get_entry("a.txt").unwrap();
    assert!(e.scrapped_at.secs > 1_600_000_000);
}

#[test]
fn most_recent_is_the_newest_entry() {
    let mut metadata = ScrapMetadata::new();
    assert!(metadata.most_recent().is_none());
    metadata.add_entry_at("old.txt", "/o/old.txt".to_string(), ts(1000));
    metadata.add_entry_at("new.txt", "/o/new.txt".to_string(), ts(4600));
    metadata.add_entry_at("mid.txt", "/o/mid.txt".to_string(), ts(2000));
    assert_eq!(metadata.most_recent().unwrap().scrapped_name, "new.txt");
    metadata.add_entry_at("tie.txt", "/o/tie.txt".to_string(), ts(4600));
    assert_eq!(metadata.most_recent().unwrap().scrapped_name, "tie.txt");
}

#[test]
fn expiry_by_recorded_time_or_modification_time() {
    let mut metadata = ScrapMetadata::new();
    metadata.add_entry_at("a.txt", "/o/a.txt".to_string(), ts(10));
    assert!(metadata.is_expired("a.txt", ts(1000), ts(50)));
    assert!(!metadata.is_expired("b.txt", ts(1000), ts(50)));
    assert!(metadata.is_expired("b.txt", ts(20), ts(50)));
}

#[test]
fn entry_duplicate_keeps_fields() {
    let e = ScrapEntry {
        original_path: "/x/y".to_string(),
        scrapped_at: Timestamp { secs: 5, nanos: 7 },
        scrapped_name: "y".to_string(),
    };
    let d = e.duplicate();
    assert_eq!(d.original_path, "/x/y");
    assert_eq!(d.scrapped_at, Timestamp { secs: 5, nanos: 7 });
    assert_eq!(d.scrapped_name, "y");
    assert!(Timestamp { secs: 5, nanos: 6 }.before(&d.scrapped_at));
    assert!(!d.scrapped_at.before(&Timestamp { secs: 5, nanos: 7 }));
}

fn listing(name: &str, at: Option<i64>, size: u64) -> ListingEntry {
    ListingEntry { name: name.to_string(), scrapped_at: at.map(ts), size }
}

fn names(v: &[ListingEntry]) -> Vec<&str> {
    v.iter().map(|e| e.name.as_str()).collect()
}

#[test]
fn listing_sorts_by_each_key() {
    let make = || {
        vec![
            listing("b.txt", Some(30), 300),
            listing("a.txt", Some(10), 100),
            listing("c.txt", None, 200),
            listing("B.txt", Some(20), 100),
        ]
    };
    assert_eq!(names(&sort_listing(make(), SortKey::Name)), vec!["B.txt", "a.txt", "b.txt", "c.txt"]);
    assert_eq!(names(&sort_listing(make(), SortKey::Date)), vec!["b.txt", "B.txt", "a.txt", "c.txt"]);
    assert_eq!(names(&sort_listing(make(), SortKey::Size)), vec!["a.txt", "B.txt", "c.txt", "b.txt"]);
}

#[test]
fn sort_key_names() {
    assert_eq!(parse_sort_key("name"), Some(SortKey::Name));
    assert_eq!(parse_sort_key("date"), Some(SortKey::Date));
    assert_eq!(parse_sort_key("size"), Some(SortKey::Size));
    assert_eq!(parse_sort_key("Size"), None);
}

#[test]
fn find_matches_name_before_content() {
    let p = CompiledPattern::compile("TODO|fixme").unwrap();
    assert_eq!(classify_find(&p, "fixme.txt", Some("nothing")), Some(FindMatch::FileName));
    assert_eq!(classify_find(&p, "notes.txt", Some("a TODO here")), Some(FindMatch::Content));
    assert_eq!(classify_find(&p, "notes.txt", None), None);
    assert_eq!(classify_find(&p, "notes.txt", Some("clean")), None);
    assert_eq!(find_match_label(FindMatch::FileName), "filename match");
    assert_eq!(find_match_label(FindMatch::Content), "content match");
    assert!(CompiledPattern::compile("(unclosed").is_none());
}

#[test]
fn gitignore_addition_is_idempotent() {
    for contents in ["*.log\ntarget/\n", "*.log", ""] {
        let once = format!("{}{}", contents, gitignore_addition(contents).unwrap());
        assert_eq!(gitignore_addition(&once), None);
    }
}
