//! The rotation scenarios, driven through `prepare` and `plan` against an
//! in-memory directory listing of (name, content) pairs.

use simple_file_rotation::{FileRotation, RotationPlan};

/// Applies a rotation plan to an in-memory directory: deletions first, then
/// the renames in the order the plan gives them.  A rename onto an existing
/// name overwrites it, as a filesystem rename would.
fn apply(plan: &RotationPlan, files: &mut Vec<(String, String)>) {
    for name in &plan.deletions {
        files.retain(|(n, _)| n != name);
    }
    for rename in &plan.renames {
        files.retain(|(n, _)| n != &rename.destination);
        for entry in files.iter_mut() {
            if entry.0 == rename.source {
                entry.0 = rename.destination.clone();
            }
        }
    }
}

fn sorted_names(files: &[(String, String)]) -> Vec<String> {
    let mut names: Vec<String> = files.iter().map(|(n, _)| n.clone()).collect();
    names.sort();
    names
}

fn content_of(files: &[(String, String)], name: &str) -> String {
    files
        .iter()
        .find(|(n, _)| n == name)
        .map(|(_, c)| c.clone())
        .expect("file not found")
}

#[test]
fn no_file_to_rotate() {
    let mut files: Vec<(String, String)> = Vec::new();
    assert_eq!(files.len(), 0, "test directory is not empty");

    let target = FileRotation::new("logfile.log".to_string())
        .prepare()
        .expect("a plain file name is a valid target");
    let entries: Vec<String> = files.iter().map(|(n, _)| n.clone()).collect();
    let plan = target.plan(&entries);
    apply(&plan, &mut files);

    assert_eq!(
        files.len(),
        0,
        "test directory is not empty even though there are no files to rotate"
    );
}

#[test]
fn single_file_to_rotate() {
    let content = "testing\ntesting\n";
    let mut files = vec![("logfile.log".to_string(), content.to_string())];

    let target = FileRotation::new("logfile.log".to_string())
        .prepare()
        .expect("a plain file name is a valid target");
    let entries: Vec<String> = files.iter().map(|(n, _)| n.clone()).collect();
    let plan = target.plan(&entries);
    apply(&plan, &mut files);

    assert_eq!(files.len(), 1, "more than one file?");
    assert_eq!(sorted_names(&files), vec!["logfile.1.log".to_string()]);
    assert_eq!(content_of(&files, "logfile.1.log"), content);
}

#[test]
fn two_files_to_rotate() {
    let content1 = "content1\n";
    let content2 = "content2\n";
    let mut files = vec![
        ("logfile.log".to_string(), content1.to_string()),
        ("logfile.1.log".to_string(), content2.to_string()),
    ];

    let target = FileRotation::new("logfile.log".to_string())
        .prepare()
        .expect("a plain file name is a valid target");
    let entries: Vec<String> = files.iter().map(|(n, _)| n.clone()).collect();
    let plan = target.plan(&entries);
    apply(&plan, &mut files);

    assert_eq!(
        sorted_names(&files),
        vec!["logfile.1.log".to_string(), "logfile.2.log".to_string()]
    );
    assert_eq!(content_of(&files, "logfile.2.log"), content2);
    assert_eq!(content_of(&files, "logfile.1.log"), content1);
}

#[test]
fn dont_create_more_than_allowed_rotated_files() {
    let content1 = "content1\n";
    let content2 = "content2\n";
    let content3 = "content3\n";
    let content4 = "content4\n";
    let mut files = vec![
        ("logfile.log".to_string(), content1.to_string()),
        ("logfile.1.log".to_string(), content2.to_string()),
        ("logfile.2.log".to_string(), content3.to_string()),
        ("logfile.3.log".to_string(), content4.to_string()),
    ];

    let target = FileRotation::new("logfile.log".to_string())
        .max_old_files(2)
        .prepare()
        .expect("a plain file name is a valid target");
    let entries: Vec<String> = files.iter().map(|(n, _)| n.clone()).collect();
    let plan = target.plan(&entries);
    apply(&plan, &mut files);

    assert_eq!(
        sorted_names(&files),
        vec!["logfile.1.log".to_string(), "logfile.2.log".to_string()]
    );
    assert_eq!(content_of(&files, "logfile.2.log"), content2);
    assert_eq!(content_of(&files, "logfile.1.log"), content1);
}
