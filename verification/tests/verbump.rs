use refac::verbump::{
    commit_count, commit_range, hook_block, hook_block_body, hook_has_block, installed_hook, log_entry,
    remove_verbump_block, tag_version, total_changes, uninstall_action, UninstallAction,
    VerbumpConfig, VersionInfo,
};

#[test]
fn test_verbump_config_default() {
    let config = VerbumpConfig::default();
    assert_eq!(config.version, 1);
    assert!(config.enabled);
    assert_eq!(config.version_file, "version.txt");
}

#[test]
fn test_version_info_format() {
    let version_info = VersionInfo {
        major_version: "v1.0".to_string(),
        minor_version: 5,
        patch_version: 100,
        full_version: "1.0.5.100".to_string(),
    };

    assert_eq!(version_info.full_version, "1.0.5.100");
}

#[test]
fn test_remove_verbump_block() {
    let content = r#"#!/bin/bash
# Some existing content
echo "Before verbump"

# === VERBUMP BLOCK START ===
# DO NOT EDIT THIS BLOCK MANUALLY
/path/to/verbump update --force
# === VERBUMP BLOCK END ===

echo "After verbump"
"#;

    let result = remove_verbump_block(content);
    assert!(!result.contains("VERBUMP BLOCK"));
    assert!(result.contains("Before verbump"));
    assert!(result.contains("After verbump"));
}

#[test]
fn test_remove_verbump_block_only() {
    let content = r#"#!/bin/bash
# === VERBUMP BLOCK START ===
/path/to/verbump update --force
# === VERBUMP BLOCK END ===
"#;

    let result = remove_verbump_block(content);
    assert_eq!(result.trim(), "#!/bin/bash");
}

#[test]
fn test_remove_verbump_block_none() {
    let content = r#"#!/bin/bash
echo "No verbump block here"
"#;

    let result = remove_verbump_block(content);
    assert_eq!(result, content);
}

#[test]
fn calculate_combines_tag_commits_and_changes() {
    let info = VersionInfo::calculate("v2.1".to_string(), 5, 247);
    assert_eq!(info.full_version, "2.1.5.247");
    assert_eq!(info.major_version, "v2.1");
    let untagged = VersionInfo::calculate("1.2".to_string(), 0, 0);
    assert_eq!(untagged.full_version, "1.2.0.0");
    assert_eq!(info.version_file_contents(), "2.1.5.247\n");
}

#[test]
fn git_outputs_are_interpreted() {
    assert_eq!(tag_version(true, "v1.2\n"), "v1.2");
    assert_eq!(tag_version(false, "whatever"), "v0");
    assert_eq!(commit_range("v0"), None);
    assert_eq!(commit_range("v1.2"), Some("v1.2..HEAD".to_string()));
    assert_eq!(commit_count(true, " 42\n"), Some(42));
    assert_eq!(commit_count(true, "+7"), Some(7));
    assert_eq!(commit_count(true, "forty"), None);
    assert_eq!(commit_count(true, "4294967296"), None);
    assert_eq!(commit_count(false, "junk"), Some(0));
    let log = "10\t2\tsrc/a.rs\n-\t-\tbin.png\n3 4 b.rs\n\nx\n";
    assert_eq!(total_changes(true, log), 19);
    assert_eq!(total_changes(false, log), 0);
    assert_eq!(total_changes(true, "4294967295\t1\tbig\n"), u32::MAX);
}

#[test]
fn install_then_uninstall_round_trip() {
    let block = hook_block("/usr/bin/verbump");
    assert!(block.starts_with("#!/bin/bash\n# === VERBUMP BLOCK START ===\n"));
    assert!(block.contains("/usr/bin/verbump update --force\n"));
    let fresh = installed_hook(None, "/usr/bin/verbump");
    assert_eq!(fresh, block);
    assert!(hook_has_block(&fresh));
    assert_eq!(uninstall_action(&fresh), UninstallAction::RemoveFile);

    assert_eq!(fresh, format!("#!/bin/bash\n{}", hook_block_body("/usr/bin/verbump")));

    let existing = "#!/bin/sh\necho lint\n\n";
    let with_block = installed_hook(Some(existing), "/v");
    assert_eq!(with_block, format!("#!/bin/sh\necho lint\n{}", hook_block_body("/v")));
    assert_eq!(
        uninstall_action(&with_block),
        UninstallAction::Rewrite("#!/bin/sh\necho lint\n".to_string())
    );
    // A hook ending in a single newline comes back exactly.
    let hook = "#!/bin/sh\necho hi\n";
    let installed = installed_hook(Some(hook), "/usr/local/bin/verbump");
    assert_eq!(remove_verbump_block(&installed), hook);
    assert_eq!(uninstall_action(&installed), UninstallAction::Rewrite(hook.to_string()));
    let reinstalled = installed_hook(Some(&with_block), "/w");
    assert_eq!(reinstalled.matches("VERBUMP BLOCK START").count(), 1);
    assert_eq!(uninstall_action("#!/bin/bash\necho hi\n"), UninstallAction::NotInstalled);
}

#[test]
fn log_lines_are_bracketed_and_terminated() {
    assert_eq!(log_entry("2024-07-19 14:30:15", "Updated"), "[2024-07-19 14:30:15] Updated\n");
}

#[test]
fn block_free_content_without_carriage_returns_is_kept() {
    for content in ["", "a", "a\n", "a\n\nb", "x\n\n"] {
        assert_eq!(remove_verbump_block(content), content);
    }
    assert_eq!(remove_verbump_block("\n"), "");
    assert_eq!(remove_verbump_block("a\r\nb\r\n"), "a\nb\n");
}
