use refac::collision::{
    collision_verdict, serious_collision_count, serious_descriptions, CollisionDetector, CollisionType,
};
use refac::rename::{ItemType, RenameItem};

#[test]
fn test_no_collisions() {
    let mut detector = CollisionDetector::new();

    detector.add_rename("/test/old1.txt".to_string(), "/test/new1.txt".to_string());
    detector.add_rename("/test/old2.txt".to_string(), "/test/new2.txt".to_string());

    let collisions = detector.detect_collisions(&vec![], false);
    assert!(collisions.is_empty());
    assert!(!detector.has_collisions());
}

#[test]
fn test_multiple_sources_same_target() {
    let mut detector = CollisionDetector::new();

    detector.add_rename("/test/old1.txt".to_string(), "/test/target.txt".to_string());
    detector.add_rename("/test/old2.txt".to_string(), "/test/target.txt".to_string());

    let collisions = detector.detect_collisions(&vec![], false);
    assert_eq!(collisions.len(), 1);
    assert_eq!(collisions[0].collision_type, CollisionType::MultipleSourcesSameTarget);
    assert!(detector.has_collisions());
}

#[test]
fn test_target_already_exists() {
    let mut detector = CollisionDetector::new();

    let existing_file = "/tmp/work/existing.txt".to_string();
    detector.add_existing_path(&existing_file);
    detector.add_rename("/tmp/work/source.txt".to_string(), existing_file);

    // Neither probed path is a directory.
    let dirs: Vec<String> = vec![];
    let collisions = detector.detect_collisions(&dirs, false);
    assert_eq!(collisions.len(), 1);
    assert_eq!(collisions[0].collision_type, CollisionType::TargetAlreadyExists);
}

#[test]
fn test_source_equals_target() {
    let mut detector = CollisionDetector::new();

    let path = "/test/same.txt".to_string();
    detector.add_rename(path.clone(), path);

    let collisions = detector.detect_collisions(&vec![], false);
    assert_eq!(collisions.len(), 1);
    assert_eq!(collisions[0].collision_type, CollisionType::SourceEqualsTarget);
}

#[test]
fn test_file_to_directory_collision() {
    let mut detector = CollisionDetector::new();

    let existing_dir = "/tmp/work/existing_dir".to_string();
    detector.add_existing_path(&existing_dir);
    detector.add_rename("/tmp/work/source.txt".to_string(), existing_dir.clone());

    assert_eq!(
        detector.paths_to_probe(),
        vec!["/tmp/work/existing_dir".to_string(), "/tmp/work/source.txt".to_string()]
    );
    let dirs = vec![existing_dir];
    let collisions = detector.detect_collisions(&dirs, false);
    assert_eq!(collisions.len(), 1);
    assert_eq!(collisions[0].collision_type, CollisionType::FileToDirectory);
}

#[test]
fn test_directory_to_file_collision() {
    let mut detector = CollisionDetector::new();

    let existing_file = "/tmp/work/existing.txt".to_string();
    detector.add_existing_path(&existing_file);
    let source_dir = "/tmp/work/source_dir".to_string();

    detector.add_rename(source_dir.clone(), existing_file);

    let dirs = vec![source_dir];
    let collisions = detector.detect_collisions(&dirs, false);
    assert_eq!(collisions.len(), 1);
    assert_eq!(collisions[0].collision_type, CollisionType::DirectoryToFile);
}

#[test]
fn test_scan_existing_paths() {
    let mut detector = CollisionDetector::new();

    for p in [
        "/tmp/scan",
        "/tmp/scan/file1.txt",
        "/tmp/scan/file2.txt",
        "/tmp/scan/subdir",
        "/tmp/scan/subdir/file3.txt",
        "/tmp/scan/file1.txt",
    ] {
        detector.add_existing_path(p);
    }

    assert!(detector.existing_paths.len() >= 4);
    assert_eq!(detector.existing_paths.len(), 5);
}

#[test]
fn test_collision_summary() {
    let mut detector = CollisionDetector::new();

    detector.add_rename("/test/old1.txt".to_string(), "/test/target.txt".to_string());
    detector.add_rename("/test/old2.txt".to_string(), "/test/target.txt".to_string());

    let same_path = "/test/same.txt".to_string();
    detector.add_rename(same_path.clone(), same_path);

    detector.detect_collisions(&vec![], false);

    let summary = detector.get_collision_summary();
    assert_eq!(summary.get(&CollisionType::MultipleSourcesSameTarget), Some(&1));
    assert_eq!(summary.get(&CollisionType::SourceEqualsTarget), Some(&1));
    assert_eq!(summary.len(), 2);
}

#[test]
fn test_collision_report() {
    let mut detector = CollisionDetector::new();

    detector.add_rename("/test/old1.txt".to_string(), "/test/target.txt".to_string());
    detector.add_rename("/test/old2.txt".to_string(), "/test/target.txt".to_string());

    detector.detect_collisions(&vec![], false);

    let report = detector.generate_report();
    assert!(report.contains("Collision Report"));
    assert!(report.contains("MultipleSourcesSameTarget"));
    assert!(report.contains("target.txt"));
}

#[test]
fn test_no_collisions_report() {
    let detector = CollisionDetector::new();
    let report = detector.generate_report();
    assert_eq!(report, "No collisions detected.");
}

#[test]
fn test_clear() {
    let mut detector = CollisionDetector::new();

    detector.add_rename("/test/old.txt".to_string(), "/test/new.txt".to_string());
    detector.add_existing_path("/test/existing.txt");
    detector.detect_collisions(&vec![], false);

    assert!(!detector.target_paths.is_empty());
    assert!(!detector.existing_paths.is_empty());

    detector.clear();

    assert!(detector.target_paths.is_empty());
    assert!(detector.existing_paths.is_empty());
    assert!(detector.collisions.is_empty());
}

#[test]
fn report_lists_every_collision_in_full() {
    let mut detector = CollisionDetector::new();
    detector.add_rename("/a/x".to_string(), "/a/t".to_string());
    detector.add_rename("/a/y".to_string(), "/a/t".to_string());
    detector.add_rename("/a/s".to_string(), "/a/s".to_string());
    detector.detect_collisions(&vec![], false);
    let report = detector.generate_report();
    let expected = format!(
        "Collision Report (2 issues found):\n{}\n  MultipleSourcesSameTarget: 1 issue(s)\n  SourceEqualsTarget: 1 issue(s)\n\n\
1. Multiple files/directories trying to rename to the same target: /a/t (sources: /a/x, /a/y)\n   Type: MultipleSourcesSameTarget\n   Target: /a/t\n   Sources:\n     - /a/x\n     - /a/y\n\n\
2. Source and target are identical: /a/s\n   Type: SourceEqualsTarget\n   Target: /a/s\n   Source: /a/s\n\n",
        "=".repeat(50)
    );
    assert_eq!(report, expected);
}

#[test]
fn merges_are_reported_before_overwrites() {
    let mut detector = CollisionDetector::new();
    detector.add_existing_path("/d/exists");
    detector.add_rename("/d/a".to_string(), "/d/exists".to_string());
    detector.add_rename("/d/b".to_string(), "/d/t".to_string());
    detector.add_rename("/d/c".to_string(), "/d/t".to_string());
    let collisions = detector.detect_collisions(&vec![], false);
    assert_eq!(collisions.len(), 2);
    assert_eq!(collisions[0].collision_type, CollisionType::MultipleSourcesSameTarget);
    assert_eq!(collisions[0].target_path, "/d/t");
    assert_eq!(collisions[0].source_paths, vec!["/d/b".to_string(), "/d/c".to_string()]);
    assert_eq!(
        collisions[0].description,
        "Multiple files/directories trying to rename to the same target: /d/t (sources: /d/b, /d/c)"
    );
    assert_eq!(collisions[1].collision_type, CollisionType::TargetAlreadyExists);
    assert_eq!(collisions[1].description, "Target path already exists: /d/exists");
}

#[test]
fn case_only_differences_on_case_insensitive_filesystems() {
    let mut detector = CollisionDetector::new();
    detector.add_rename("/x/one".to_string(), "/x/Readme".to_string());
    detector.add_rename("/x/two".to_string(), "/x/README".to_string());
    detector.add_rename("/x/three".to_string(), "/x/other".to_string());
    let sensitive = detector.detect_collisions(&vec![], false);
    assert!(sensitive.is_empty());
    let insensitive = detector.detect_collisions(&vec![], true);
    assert_eq!(insensitive.len(), 2);
    let mut targets: Vec<&str> = insensitive.iter().map(|c| c.target_path.as_str()).collect();
    targets.sort();
    assert_eq!(targets, vec!["/x/README", "/x/Readme"]);
    assert!(insensitive.iter().all(|c| c.collision_type == CollisionType::CaseOnlyDifference));
    assert_eq!(
        insensitive[0].description,
        "Case-only difference detected on case-insensitive filesystem: /x/Readme"
    );
}

#[test]
fn collisions_by_type_and_counts() {
    let mut detector = CollisionDetector::new();
    detector.add_rename("/a".to_string(), "/a".to_string());
    detector.add_rename("/b".to_string(), "/c".to_string());
    detector.add_rename("/d".to_string(), "/c".to_string());
    detector.detect_collisions(&vec![], false);
    assert_eq!(detector.collision_count(), 2);
    assert_eq!(detector.get_collisions().len(), 2);
    let noops = detector.get_collisions_by_type(CollisionType::SourceEqualsTarget);
    assert_eq!(noops.len(), 1);
    assert_eq!(noops[0].target_path, "/a");
    assert!(detector.get_collisions_by_type(CollisionType::FileToDirectory).is_empty());
    assert_eq!(serious_collision_count(&detector.collisions), 1);
    assert_eq!(detector.get_collision_summary().get(&CollisionType::CaseOnlyDifference), None);
}

#[test]
fn renames_from_items_are_grouped_by_target() {
    let mut detector = CollisionDetector::new();
    let items = vec![
        RenameItem { original_path: "/p/a".into(), new_path: "/p/b".into(), item_type: ItemType::File, depth: 1 },
        RenameItem { original_path: "/p/c".into(), new_path: "/p/b".into(), item_type: ItemType::File, depth: 1 },
        RenameItem { original_path: "/p/d".into(), new_path: "/p/e".into(), item_type: ItemType::Directory, depth: 1 },
    ];
    detector.add_renames(&items);
    assert_eq!(detector.target_paths.len(), 2);
    assert_eq!(detector.target_paths[0].target, "/p/b");
    assert_eq!(detector.target_paths[0].sources, vec!["/p/a".to_string(), "/p/c".to_string()]);
    assert_eq!(detector.paths_to_probe(), vec!["/p/b", "/p/a", "/p/e", "/p/d"]);
    detector.add_existing_path("/p/b");
    detector.add_existing_path("/p/b");
    assert_eq!(detector.existing_paths.len(), 1);
}

#[test]
fn overwrite_kinds_follow_the_probed_directories() {
    let mut detector = CollisionDetector::new();
    detector.add_existing_path("/t");
    detector.add_rename("/s".to_string(), "/t".to_string());
    let both = detector.detect_collisions(&vec!["/t".to_string(), "/s".to_string()], false);
    assert_eq!(both[0].collision_type, CollisionType::TargetAlreadyExists);
    let target_only = detector.detect_collisions(&vec!["/t".to_string()], false);
    assert_eq!(target_only[0].collision_type, CollisionType::FileToDirectory);
    let source_only = detector.detect_collisions(&vec!["/s".to_string()], false);
    assert_eq!(source_only[0].collision_type, CollisionType::DirectoryToFile);
}

#[test]
fn default_detector_is_empty_and_noops_are_not_reported_as_blocking() {
    let mut detector = CollisionDetector::default();
    assert!(!detector.has_collisions());
    assert_eq!(detector.collision_count(), 0);

    detector.add_rename("/p/same".to_string(), "/p/same".to_string());
    detector.add_rename("/p/a".to_string(), "/p/t".to_string());
    detector.add_rename("/p/b".to_string(), "/p/t".to_string());
    let collisions = detector.detect_collisions(&vec![], false);
    let blocking = serious_descriptions(&collisions);
    assert_eq!(blocking.len(), serious_collision_count(&collisions));
    assert_eq!(
        blocking,
        vec!["Multiple files/directories trying to rename to the same target: /p/t (sources: /p/a, /p/b)".to_string()]
    );
}

#[test]
fn runs_stop_only_for_serious_collisions() {
    let mut detector = CollisionDetector::new();
    detector.add_rename("/p/same".to_string(), "/p/same".to_string());
    let noop_only = detector.detect_collisions(&vec![], false);
    assert_eq!(collision_verdict(&noop_only), Ok(()));
    detector.add_rename("/p/a".to_string(), "/p/t".to_string());
    detector.add_rename("/p/b".to_string(), "/p/t".to_string());
    let collisions = detector.detect_collisions(&vec![], false);
    assert_eq!(collision_verdict(&collisions), Err("Cannot proceed due to 1 naming collision(s)".to_string()));
}

#[test]
fn summary_counts_add_up_and_match_the_lists_by_kind() {
    let mut detector = CollisionDetector::new();
    detector.add_rename("/p/a".to_string(), "/p/t".to_string());
    detector.add_rename("/p/b".to_string(), "/p/t".to_string());
    detector.add_rename("/p/s".to_string(), "/p/s".to_string());
    detector.add_rename("/p/c".to_string(), "/p/T".to_string());
    detector.add_existing_path("/p/t");
    detector.detect_collisions(&vec![], true);
    let summary = detector.get_collision_summary();
    let total: usize = summary.entries.iter().map(|(_, n)| *n).sum();
    assert_eq!(total, detector.collision_count());
    for (kind, n) in &summary.entries {
        assert_eq!(detector.get_collisions_by_type(*kind).len(), *n);
    }
    let merges = detector.get_collisions_by_type(CollisionType::MultipleSourcesSameTarget);
    assert_eq!(merges.len(), 1);
}

#[test]
fn paths_are_compared_by_components() {
    let mut detector = CollisionDetector::new();
    detector.add_rename("/p/a".to_string(), "/p/t".to_string());
    detector.add_rename("/p/b".to_string(), "/p/t/".to_string());
    detector.add_rename("/p/./s".to_string(), "/p/s".to_string());
    detector.add_rename("/p/c".to_string(), "/p/x".to_string());
    detector.add_existing_path("/p//x");
    detector.add_existing_path("/p/x/.");
    assert_eq!(detector.existing_paths.len(), 1);
    let collisions = detector.detect_collisions(&vec![], false);
    let kinds: Vec<CollisionType> = collisions.iter().map(|c| c.collision_type).collect();
    assert_eq!(
        kinds,
        vec![
            CollisionType::MultipleSourcesSameTarget,
            CollisionType::SourceEqualsTarget,
            CollisionType::TargetAlreadyExists
        ]
    );
    assert_eq!(collisions[0].target_path, "/p/t");
    assert_eq!(collisions[0].source_paths, vec!["/p/a".to_string(), "/p/b".to_string()]);
}
