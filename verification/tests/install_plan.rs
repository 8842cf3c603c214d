use caplike::archive::Archive;
use caplike::cli::{install_decision, main_revert, require_selection};
use caplike::install::{
    check_entry, install_steps, prefix_mismatch_message, starts_with,
    symlink_failure_message, InstallStep,
};

#[test]
fn steps_for_an_archive_not_yet_unpacked() {
    let a = Archive::from_file_name("tool-v1.2.zip").unwrap();
    assert_eq!(
        install_steps(&a, false),
        vec![
            InstallStep::CheckTopLevelDir {
                zip_path: "tool-v1.2.zip".to_string(),
                expected_dir: "tool-v1.2".to_string()
            },
            InstallStep::Unzip { zip_path: "tool-v1.2.zip".to_string() },
            InstallStep::Symlink { target: "tool-v1.2".to_string(), link: "tool".to_string() },
        ]
    );
}

#[test]
fn steps_for_an_archive_already_unpacked() {
    let mut a = Archive::from_file_name("tool-v1.2.zip").unwrap();
    a.set_extracted_path(Some("tool-v1.2".to_string()));
    assert_eq!(
        install_steps(&a, true),
        vec![
            InstallStep::CheckTopLevelDir {
                zip_path: "tool-v1.2.zip".to_string(),
                expected_dir: "tool-v1.2".to_string()
            },
            InstallStep::RemoveExtracted { path: "tool-v1.2".to_string() },
            InstallStep::Symlink { target: "tool-v1.2".to_string(), link: "tool".to_string() },
        ]
    );
}

#[test]
fn entries_must_lie_under_the_base_name() {
    assert_eq!(check_entry("tool-v1/bin", "tool-v1"), Ok(()));
    assert_eq!(
        check_entry("other/x", "tool-v1"),
        Err("prefix mismatch for 'other/x' expecting 'tool-v1'".to_string())
    );
    assert!(starts_with("tool-v1/x", "tool-v1"));
    assert!(!starts_with("tool", "tool-v1"));
    assert!(starts_with("é/x", "é"));
    assert_eq!(
        prefix_mismatch_message("other/x", "tool-v1"),
        "prefix mismatch for 'other/x' expecting 'tool-v1'"
    );
    assert_eq!(
        symlink_failure_message("tool", "tool-v1"),
        "Failed to create symlink 'tool' to 'tool-v1'"
    );
}

#[test]
fn revert_is_not_implemented() {
    assert_eq!(main_revert(None), Err("This command is not yet implemented.".to_string()));
    assert_eq!(
        main_revert(Some("x".to_string())),
        Err("This command is not yet implemented.".to_string())
    );
}

#[test]
fn install_stops_without_archives_or_selection() {
    assert_eq!(install_decision(2, Some("tool")), None);
    assert_eq!(
        install_decision(0, Some("tool")),
        Some("No archives found for 'tool'.".to_string())
    );
    assert_eq!(install_decision(0, None), Some("No archives found.".to_string()));
    let a = Archive::from_file_name("tool-v1.zip").unwrap();
    assert_eq!(require_selection(Some(&a)), Ok(&a));
    assert_eq!(
        require_selection(None),
        Err("aborted without selecting an archive".to_string())
    );
}

#[test]
fn the_extracted_directory_is_the_base_name() {
    let mut a = Archive::from_file_name("tool-v1.2.zip").unwrap();
    a.record_extracted_dir(true);
    assert_eq!(a.extracted_path(), Some("tool-v1.2"));
    a.record_extracted_dir(false);
    assert_eq!(a.extracted_path(), None);
}
