use refac::path::{depth_below, file_name, join_path, split_stem_extension, with_file_name};
use refac::rename::{
    confirmation_needed, sort_rename_items, ItemType, Message, MessageKind, Mode, OutputFormat, PlanError, RenameEngine, RenameItem,
    RenameStats,
};

fn engine(root: &str, old: &str, new: &str, mode: Mode, ignore_case: bool) -> RenameEngine {
    RenameEngine::new(root.to_string(), old.to_string(), new.to_string(), mode, vec![], vec![], ignore_case, false)
}

fn matcher(ignore_case: bool, use_regex: bool) -> RenameEngine {
    RenameEngine::new("/".to_string(), "x".to_string(), "y".to_string(), Mode::Full, vec![], vec![], ignore_case, use_regex)
}

fn create_rename_item(
    path: &str,
    is_file: bool,
    root: &str,
    mode: Mode,
    old: &str,
    new: &str,
    ignore_case: bool,
) -> Result<Option<RenameItem>, PlanError> {
    engine(root, old, new, mode, ignore_case).create_rename_item(path, is_file)
}

#[test]
fn rename_item_for_a_matching_file() {
    let item = create_rename_item("/root/src/old_name.rs", true, "/root", Mode::Full, "old", "new", false)
        .unwrap()
        .unwrap();
    assert_eq!(item.original_path, "/root/src/old_name.rs");
    assert_eq!(item.new_path, "/root/src/new_name.rs");
    assert_eq!(item.item_type, ItemType::File);
    assert_eq!(item.depth, 2);
    assert!(!item.is_noop());
}

#[test]
fn rename_item_replaces_every_occurrence() {
    let item = create_rename_item("/r/oldoldx", false, "/r", Mode::Full, "old", "n", false)
        .unwrap()
        .unwrap();
    assert_eq!(item.new_path, "/r/nnx");
    assert_eq!(item.item_type, ItemType::Directory);
    assert_eq!(item.depth, 1);
}

#[test]
fn rename_item_ignoring_case_lowercases_the_name() {
    let item = create_rename_item("/r/MyOLDFile.TXT", true, "/r", Mode::Full, "old", "new", true)
        .unwrap()
        .unwrap();
    assert_eq!(item.new_path, "/r/MynewFile.TXT");
    let item = create_rename_item("/r/oLdOLDx", false, "/r", Mode::Full, "OLD", "n", true).unwrap().unwrap();
    assert_eq!(item.new_path, "/r/nnx");
    assert!(create_rename_item("/r/MyOLDFile.TXT", true, "/r", Mode::Full, "old", "new", false)
        .unwrap()
        .is_none());
}

#[test]
fn rename_item_respects_mode_and_names() {
    assert!(create_rename_item("/r/old.txt", true, "/r", Mode::DirsOnly, "old", "new", false)
        .unwrap()
        .is_none());
    assert!(create_rename_item("/r/old", false, "/r", Mode::FilesOnly, "old", "new", false)
        .unwrap()
        .is_none());
    assert!(create_rename_item("/r/other.txt", true, "/r", Mode::Full, "old", "new", false)
        .unwrap()
        .is_none());
    assert_eq!(
        create_rename_item("/r/..", true, "/r", Mode::Full, "old", "new", false).err(),
        Some(PlanError::InvalidFileName)
    );
    assert_eq!(
        create_rename_item("", true, "/r", Mode::Full, "old", "new", false).err(),
        Some(PlanError::InvalidFileName)
    );
}

#[test]
fn modes_select_what_is_processed() {
    assert!(Mode::Full.should_process_files() && Mode::Full.should_process_dirs());
    assert!(Mode::FilesOnly.should_process_files() && !Mode::FilesOnly.should_process_dirs());
    assert!(!Mode::DirsOnly.should_process_files() && Mode::DirsOnly.should_process_dirs());
    assert!(!Mode::NamesOnly.should_process_content() && Mode::NamesOnly.should_process_names());
    assert!(Mode::ContentOnly.should_process_content() && !Mode::ContentOnly.should_process_names());
    assert!(!Mode::ContentOnly.should_process_dirs());
}

#[test]
fn glob_like_patterns() {
    let o = matcher(false, false);
    assert!(o.path_matches_pattern("main.rs", "*.rs"));
    assert!(!o.path_matches_pattern("main.rsx", "*.rs"));
    assert!(o.path_matches_pattern("test_a.py", "test_*"));
    assert!(o.path_matches_pattern(".hidden", ".*"));
    assert!(!o.path_matches_pattern("visible", ".*"));
    assert!(o.path_matches_pattern("my_target_dir", "target"));
    assert!(!o.path_matches_pattern("MAIN.RS", "*.rs"));
    assert!(matcher(true, false).path_matches_pattern("MAIN.RS", "*.rs"));
}

#[test]
fn regex_patterns() {
    let o = matcher(false, true);
    assert!(o.path_matches_pattern("file123.txt", r"\d+"));
    assert!(!o.path_matches_pattern("file.txt", r"^\d+$"));
    // An invalid regex falls back to the plain rules.
    assert!(o.path_matches_pattern("a(b", "("));
}

#[test]
fn include_and_exclude_lists() {
    let includes = vec!["*.rs".to_string(), "*.toml".to_string()];
    let excludes = vec!["target".to_string()];
    let e = RenameEngine::new("/".into(), "a".into(), "b".into(), Mode::Full, includes, excludes, false, false);
    assert!(e.matches_patterns("lib.rs"));
    assert!(e.matches_patterns("Cargo.toml"));
    assert!(!e.matches_patterns("README.md"));
    assert!(!e.matches_patterns("target.rs"));
    assert!(matcher(false, false).matches_patterns("anything"));
}

#[test]
fn walk_filter() {
    let with = |mode: Mode, includes: Vec<&str>| {
        RenameEngine::new(
            "/r".into(),
            "a".into(),
            "b".into(),
            mode,
            includes.into_iter().map(String::from).collect(),
            vec![],
            false,
            false,
        )
    };
    assert!(with(Mode::Full, vec![]).should_process_entry(Some(".git"), true, false, true));
    assert!(!with(Mode::Full, vec![]).should_process_entry(Some(".git"), false, false, true));
    assert!(with(Mode::Full, vec![".*"]).should_process_entry(Some(".env"), false, true, false));
    assert!(with(Mode::Full, vec!["*.env"]).should_process_entry(Some(".env"), false, true, false));
    assert!(!with(Mode::DirsOnly, vec![]).should_process_entry(Some("a.txt"), false, true, false));
    assert!(with(Mode::DirsOnly, vec![]).should_process_entry(Some("dir"), false, false, true));
    assert!(!with(Mode::FilesOnly, vec![]).should_process_entry(Some("dir"), false, false, true));
    assert!(with(Mode::Full, vec![]).should_process_entry(None, false, true, false));
}

fn item(path: &str, t: ItemType, depth: usize) -> RenameItem {
    RenameItem { original_path: path.to_string(), new_path: format!("{}x", path), item_type: t, depth }
}

#[test]
fn renames_run_directories_deepest_first_then_files() {
    let items = vec![
        item("f1", ItemType::File, 2),
        item("d1", ItemType::Directory, 1),
        item("f2", ItemType::File, 1),
        item("d3", ItemType::Directory, 3),
        item("d2", ItemType::Directory, 1),
    ];
    let sorted = sort_rename_items(items);
    let order: Vec<&str> = sorted.iter().map(|i| i.original_path.as_str()).collect();
    assert_eq!(order, vec!["d3", "d1", "d2", "f2", "f1"]);
}

#[test]
fn stats_count_the_plan() {
    let items = vec![
        item("f1", ItemType::File, 2),
        item("d1", ItemType::Directory, 1),
        item("f2", ItemType::File, 1),
    ];
    let stats = RenameStats::from_plan(4, &items);
    assert_eq!(stats.files_with_content_changes, 4);
    assert_eq!(stats.files_renamed, 2);
    assert_eq!(stats.directories_renamed, 1);
    assert!(stats.errors.is_empty());
    assert_eq!(stats.total_changes(), 7);
}

fn texts(v: &[Message]) -> Vec<(MessageKind, &str)> {
    v.iter().map(|m| (m.kind, m.text.as_str())).collect()
}

#[test]
fn summary_and_report_texts() {
    let stats = RenameStats {
        files_with_content_changes: 3,
        files_renamed: 2,
        directories_renamed: 1,
        errors: vec!["Failed to rename a".to_string(), "Failed to modify b".to_string()],
    };
    assert_eq!(
        texts(&stats.summary_messages(OutputFormat::Plain)),
        vec![
            (MessageKind::Info, "Content changes: 3"),
            (MessageKind::Info, "File renames: 2"),
            (MessageKind::Info, "Directory renames: 1"),
            (MessageKind::Info, "Total changes: 6"),
        ]
    );
    assert_eq!(
        texts(&stats.summary_messages(OutputFormat::Human)),
        vec![
            (MessageKind::Info, "=== CHANGE SUMMARY ==="),
            (MessageKind::Info, "Content modifications: 3 file(s)"),
            (MessageKind::Info, "File renames:         2 file(s)"),
            (MessageKind::Info, "Directory renames:    1 directory(ies)"),
            (MessageKind::Info, "Total changes:        6"),
        ]
    );
    assert!(stats.summary_messages(OutputFormat::Json).is_empty());
    assert_eq!(
        texts(&stats.final_report_messages(OutputFormat::Plain, true)),
        vec![
            (MessageKind::Info, "Dry run complete. No changes were made."),
            (MessageKind::Info, "Total changes: 6"),
        ]
    );
    assert_eq!(
        texts(&stats.final_report_messages(OutputFormat::Human, false)),
        vec![
            (MessageKind::Success, "=== OPERATION COMPLETE ==="),
            (MessageKind::Success, "Operation completed successfully!"),
            (MessageKind::Info, "Total changes applied: 6"),
            (MessageKind::Warning, "2 error(s) occurred:"),
            (MessageKind::Error, "Failed to rename a"),
            (MessageKind::Error, "Failed to modify b"),
        ]
    );
}

#[test]
fn path_helpers() {
    assert_eq!(file_name("/a/b/c.txt"), Some("c.txt".to_string()));
    assert_eq!(file_name("c.txt"), Some("c.txt".to_string()));
    assert_eq!(file_name("/a/.."), None);
    assert_eq!(file_name("/"), None);
    assert_eq!(with_file_name("/a/b/c.txt", "d.md"), "/a/b/d.md");
    assert_eq!(with_file_name("/c.txt", "d.md"), "/d.md");
    assert_eq!(with_file_name("c.txt", "d.md"), "d.md");
    assert_eq!(join_path("/a", "b"), "/a/b");
    assert_eq!(join_path("/a/", "b"), "/a/b");
    assert_eq!(join_path("/a", "/b"), "/b");
    assert_eq!(join_path("", "b"), "b");
    assert_eq!(depth_below("/root/a/b/c", "/root"), 3);
    assert_eq!(depth_below("/root/a", "/root/"), 1);
    assert_eq!(depth_below("/rooted/a", "/root"), 0);
    assert_eq!(depth_below("/root", "/root"), 0);

    let (stem, ext) = split_stem_extension(&"archive.tar.gz".chars().collect::<Vec<char>>());
    assert_eq!(stem.iter().collect::<String>(), "archive.tar");
    assert_eq!(ext.map(|e| e.iter().collect::<String>()), Some("gz".to_string()));
    let (stem, ext) = split_stem_extension(&".bashrc".chars().collect::<Vec<char>>());
    assert_eq!(stem.iter().collect::<String>(), ".bashrc");
    assert!(ext.is_none());
    let (stem, ext) = split_stem_extension(&"trailing.".chars().collect::<Vec<char>>());
    assert_eq!(stem.iter().collect::<String>(), "trailing");
    assert_eq!(ext.map(|e| e.iter().collect::<String>()), Some(String::new()));
}

#[test]
fn engine_modes_and_search_string() {
    let e = engine("/r", "OLD", "new", Mode::ContentOnly, true);
    assert!(e.should_process_files() && !e.should_process_dirs());
    assert!(e.should_process_content() && !e.should_process_names());
    assert_eq!(e.content_search_string(), "old");
    assert_eq!(engine("/r", "OLD", "new", Mode::Full, false).content_search_string(), "OLD");
}

#[test]
fn entry_plans_follow_the_scan_rules() {
    let e = RenameEngine::new(
        "/r".into(),
        "old".into(),
        "new".into(),
        Mode::Full,
        vec!["*.txt".into()],
        vec!["skip".into()],
        false,
        false,
    );
    let p = e.plan_entry("/r/d/old.txt", true).unwrap();
    assert!(p.check_content);
    let item = p.rename.unwrap();
    assert_eq!(item.new_path, "/r/d/new.txt");
    assert_eq!(item.depth, 2);

    // Fails the include patterns: nothing to do.
    let p = e.plan_entry("/r/old.rs", true).unwrap();
    assert!(!p.check_content && p.rename.is_none());
    // Excluded.
    let p = e.plan_entry("/r/skip_old.txt", true).unwrap();
    assert!(!p.check_content && p.rename.is_none());
    // A directory gets no content check.
    let p = e.plan_entry("/r/old_dir.txt", false).unwrap();
    assert!(!p.check_content);
    assert_eq!(p.rename.unwrap().item_type, ItemType::Directory);

    let names_only = RenameEngine::new("/r".into(), "old".into(), "new".into(), Mode::NamesOnly, vec![], vec![], false, false);
    let p = names_only.plan_entry("/r/old.txt", true).unwrap();
    assert!(!p.check_content && p.rename.is_some());
    let content_only = RenameEngine::new("/r".into(), "old".into(), "new".into(), Mode::ContentOnly, vec![], vec![], false, false);
    let p = content_only.plan_entry("/r/old.txt", true).unwrap();
    assert!(p.check_content && p.rename.is_none());
    let p = content_only.plan_entry("/r/..", true).unwrap();
    assert!(p.check_content && p.rename.is_none());
    assert_eq!(names_only.plan_entry("/r/..", true).err(), Some(PlanError::InvalidFileName));
}

#[test]
fn header_shows_the_settings() {
    let e = engine("/work", "old", "new", Mode::NamesOnly, false);
    assert_eq!(
        texts(&e.header_messages(OutputFormat::Human, true, true)),
        vec![
            (MessageKind::Success, "=== REFAC TOOL ==="),
            (MessageKind::Info, "Root directory: /work"),
            (MessageKind::Info, "Old string: 'old'"),
            (MessageKind::Info, "New string: 'new'"),
            (MessageKind::Info, "Mode: NamesOnly"),
            (MessageKind::Warning, "DRY RUN MODE: No changes will be made"),
            (MessageKind::Info, "Backup mode: Enabled"),
        ]
    );
    assert_eq!(e.header_messages(OutputFormat::Human, false, false).len(), 5);
    assert!(e.header_messages(OutputFormat::Plain, true, true).is_empty());
    assert_eq!(Mode::FilesOnly.name(), "FilesOnly");
}

#[test]
fn confirmation_is_asked_only_for_real_interactive_runs() {
    assert!(confirmation_needed(false, false, OutputFormat::Human));
    assert!(confirmation_needed(false, false, OutputFormat::Plain));
    assert!(!confirmation_needed(true, false, OutputFormat::Human));
    assert!(!confirmation_needed(false, true, OutputFormat::Human));
    assert!(!confirmation_needed(false, false, OutputFormat::Json));
}

#[test]
fn content_replacement_needs_text_containing_the_search_string() {
    let detector = refac::binary::BinaryDetector::default();
    let e = engine("/r", "Old", "New", Mode::Full, true);
    let text = b"some old text".to_vec();
    assert_eq!(
        e.file_needs_content_replacement(&detector, "a.txt", Some(&text), None, Some("some old text")),
        Ok(true)
    );
    // Case-insensitive search lowercases only the search string.
    assert_eq!(
        e.file_needs_content_replacement(&detector, "a.txt", Some(&text), None, Some("some OLD text")),
        Ok(false)
    );
    // Binary by extension or by content: never rewritten.
    assert_eq!(
        e.file_needs_content_replacement(&detector, "a.png", Some(&text), None, Some("some old text")),
        Ok(false)
    );
    let bin = b"old\x00".to_vec();
    assert_eq!(e.file_needs_content_replacement(&detector, "a.txt", Some(&bin), None, Some("old")), Ok(false));
    // Unreadable as text.
    assert_eq!(e.file_needs_content_replacement(&detector, "a.txt", Some(&text), None, None), Ok(false));
    assert_eq!(
        e.file_needs_content_replacement(&detector, "a.txt", None, None, Some("old")),
        Err(refac::binary::SampleError::Unreadable)
    );
}

#[test]
fn path_equality_follows_components() {
    let eq = refac::path::paths_equal;
    assert!(eq("/a/b", "/a/b/"));
    assert!(eq("/a//b", "/a/b"));
    assert!(eq("/a/./b", "/a/b"));
    assert!(!eq("./a", "a"));
    assert!(!eq("/a", "a"));
    assert!(!eq("/a/b", "/a/c"));
    assert!(eq("", ""));
    assert!(eq("/", "//"));
    for (a, b) in [("/a/b", "/a/b/"), ("a/./b", "a/b"), ("./a", "a"), ("/x", "x"), ("a/../b", "b")] {
        assert_eq!(eq(a, b), std::path::Path::new(a) == std::path::Path::new(b), "{} vs {}", a, b);
    }
}
