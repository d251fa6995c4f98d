//! Target preparation, classification, ordering and retention, case by case.

use simple_file_rotation::{FileRotation, FileRotationError};

#[test]
fn trailing_separator_is_not_a_file() {
    let err = FileRotation::new("logs/".to_string())
        .prepare()
        .expect_err("a directory path must be rejected");
    assert!(matches!(err, FileRotationError::NotAFile(p) if p == "logs/"));
}

#[test]
fn relative_directory_names_are_not_files() {
    let err = FileRotation::new("..".to_string())
        .prepare()
        .expect_err("a relative directory name must be rejected");
    assert!(matches!(err, FileRotationError::NotAFile(p) if p == ".."));

    let err = FileRotation::new("".to_string())
        .prepare()
        .expect_err("an empty path must be rejected");
    assert!(matches!(err, FileRotationError::NotAFile(p) if p.is_empty()));
}

#[test]
fn error_messages_name_the_failure() {
    let err = FileRotation::new("logs/".to_string()).prepare().unwrap_err();
    assert_eq!(err.message(), "FileRotation: not a file: logs/");
    let io = FileRotationError::Io("permission denied".to_string());
    assert_eq!(io.message(), "FileRotation io error: permission denied");
}

#[test]
fn default_extension_appended_when_missing() {
    let target = FileRotation::new("mylog".to_string()).prepare().unwrap();
    assert_eq!(target.file_name, "mylog.log");
    assert_eq!(target.directory, ".");

    let target = FileRotation::new("mylog".to_string())
        .file_extension("txt".to_string())
        .prepare()
        .unwrap();
    assert_eq!(target.file_name, "mylog.txt");
}

#[test]
fn extension_kept_when_present() {
    let target = FileRotation::new("dir/app.txt".to_string())
        .file_extension("log".to_string())
        .prepare()
        .unwrap();
    assert_eq!(target.file_name, "app.txt");
    assert_eq!(target.directory, "dir");
}

#[test]
fn directory_resolution() {
    let target = FileRotation::new("/var/log/app.log".to_string()).prepare().unwrap();
    assert_eq!(target.directory, "/var/log");
    assert_eq!(target.file_name, "app.log");

    let target = FileRotation::new("/app.log".to_string()).prepare().unwrap();
    assert_eq!(target.directory, "/");

    let target = FileRotation::new("app.log".to_string()).prepare().unwrap();
    assert_eq!(target.directory, ".");
}

#[test]
fn retention_cap_reaches_the_target() {
    let target = FileRotation::new("app.log".to_string())
        .max_old_files(3)
        .prepare()
        .unwrap();
    assert_eq!(target.max_old_files, Some(3));
}

#[test]
fn absent_family_plans_nothing() {
    let target = FileRotation::new("name.log".to_string()).prepare().unwrap();
    let entries = vec!["other.txt".to_string(), "readme.md".to_string()];
    let plan = target.plan(&entries);
    assert!(plan.renames.is_empty());
    assert!(plan.deletions.is_empty());
}

#[test]
fn unrelated_prefix_is_never_touched() {
    let target = FileRotation::new("name.log".to_string())
        .max_old_files(0)
        .prepare()
        .unwrap();
    let entries = vec!["name.log".to_string(), "other.2.txt".to_string()];
    let plan = target.plan(&entries);
    for rename in &plan.renames {
        assert_ne!(rename.source, "other.2.txt");
    }
    for deletion in &plan.deletions {
        assert_ne!(deletion, "other.2.txt");
    }
}

#[test]
fn renames_vacate_higher_generations_first() {
    let target = FileRotation::new("name.log".to_string()).prepare().unwrap();
    let entries = vec![
        "name.log".to_string(),
        "name.1.log".to_string(),
        "name.2.log".to_string(),
    ];
    let plan = target.plan(&entries);
    assert!(plan.deletions.is_empty());
    let pairs: Vec<(String, String)> = plan
        .renames
        .iter()
        .map(|r| (r.source.clone(), r.destination.clone()))
        .collect();
    assert_eq!(
        pairs,
        vec![
            ("name.2.log".to_string(), "name.3.log".to_string()),
            ("name.1.log".to_string(), "name.2.log".to_string()),
            ("name.log".to_string(), "name.1.log".to_string()),
        ]
    );
}

#[test]
fn destination_names_parse_back() {
    // The name produced for the active file is classified as a family member
    // on the next pass, and moves one generation further.
    let target = FileRotation::new("name.log".to_string()).prepare().unwrap();
    let first = target.plan(&vec!["name.log".to_string()]);
    assert_eq!(first.renames.len(), 1);
    let produced = first.renames[0].destination.clone();
    assert_eq!(produced, "name.1.log");

    let target = FileRotation::new("name.log".to_string()).prepare().unwrap();
    let second = target.plan(&vec![produced]);
    assert_eq!(second.renames.len(), 1);
    assert_eq!(second.renames[0].source, "name.1.log");
    assert_eq!(second.renames[0].destination, "name.2.log");
}

#[test]
fn retention_orders_lexicographically_not_numerically() {
    // Destination "name.11.log" sorts before "name.3.log", so with a cap of
    // one the generation-2 file is the one deleted: the documented quirk of
    // the plain string order.
    let target = FileRotation::new("name.log".to_string())
        .max_old_files(1)
        .prepare()
        .unwrap();
    let entries = vec!["name.10.log".to_string(), "name.2.log".to_string()];
    let plan = target.plan(&entries);
    assert_eq!(plan.deletions, vec!["name.2.log".to_string()]);
    assert_eq!(plan.renames.len(), 1);
    assert_eq!(plan.renames[0].source, "name.10.log");
    assert_eq!(plan.renames[0].destination, "name.11.log");
}

#[test]
fn generation_numbers_parse_like_integers() {
    // Leading zeros are accepted and renumbered in canonical decimal; a
    // non-numeric middle component is no generation at all.
    let target = FileRotation::new("name.log".to_string()).prepare().unwrap();
    let entries = vec!["name.007.log".to_string(), "name.x.log".to_string()];
    let plan = target.plan(&entries);
    assert_eq!(plan.renames.len(), 1);
    assert_eq!(plan.renames[0].source, "name.007.log");
    assert_eq!(plan.renames[0].destination, "name.8.log");
}

#[test]
fn empty_extension_leaves_the_name_bare() {
    let target = FileRotation::new("plain".to_string())
        .file_extension("".to_string())
        .prepare()
        .unwrap();
    assert_eq!(target.file_name, "plain");
    let plan = target.plan(&vec!["plain".to_string()]);
    assert_eq!(plan.renames.len(), 1);
    assert_eq!(plan.renames[0].destination, "plain.1");
}

#[test]
fn four_component_names_are_no_family() {
    let target = FileRotation::new("name.log".to_string()).prepare().unwrap();
    let entries = vec!["name.b.2.log".to_string()];
    let plan = target.plan(&entries);
    assert!(plan.renames.is_empty());
    assert!(plan.deletions.is_empty());
}

#[test]
fn largest_generation_is_a_machine_limit() {
    // A generation whose successor does not fit in a usize is left alone;
    // its predecessor still moves.
    let target = FileRotation::new("name.log".to_string()).prepare().unwrap();
    let entries = vec![
        "name.18446744073709551615.log".to_string(),
        "name.18446744073709551614.log".to_string(),
    ];
    let plan = target.plan(&entries);
    assert_eq!(plan.renames.len(), 1);
    assert_eq!(plan.renames[0].source, "name.18446744073709551614.log");
    assert_eq!(plan.renames[0].destination, "name.18446744073709551615.log");
}

#[test]
fn generation_zero_shares_the_active_destination() {
    // Both the active file and a generation-0 sibling move to generation 1;
    // the sort is stable, so the listing order decides which rename comes
    // first, and the active file's rename lands last.
    let target = FileRotation::new("name.log".to_string()).prepare().unwrap();
    let entries = vec!["name.log".to_string(), "name.0.log".to_string()];
    let plan = target.plan(&entries);
    assert_eq!(plan.renames.len(), 2);
    assert_eq!(plan.renames[0].source, "name.0.log");
    assert_eq!(plan.renames[0].destination, "name.1.log");
    assert_eq!(plan.renames[1].source, "name.log");
    assert_eq!(plan.renames[1].destination, "name.1.log");
}

#[test]
fn retention_of_zero_deletes_the_whole_family() {
    let target = FileRotation::new("name.log".to_string())
        .max_old_files(0)
        .prepare()
        .unwrap();
    let entries = vec!["name.log".to_string(), "name.1.log".to_string()];
    let plan = target.plan(&entries);
    assert!(plan.renames.is_empty());
    let mut deletions = plan.deletions.clone();
    deletions.sort();
    assert_eq!(
        deletions,
        vec!["name.1.log".to_string(), "name.log".to_string()]
    );
}
