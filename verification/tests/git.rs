use rv::git::{parse_name_status, FileEntry, FileStatus};


#[test]
fn parse_name_status_mixed() {
    let output = "A\tsrc/main.rs\nM\tsrc/lib.rs\nD\told_file.txt\n";
    let files = parse_name_status(output);
    assert_eq!(
        files,
        vec![
            FileEntry {
                path: "src/main.rs".into(),
                status: FileStatus::Added,
            },
            FileEntry {
                path: "src/lib.rs".into(),
                status: FileStatus::Modified,
            },
            FileEntry {
                path: "old_file.txt".into(),
                status: FileStatus::Deleted,
            },
        ]
    );
}

#[test]
fn parse_name_status_empty() {
    assert_eq!(parse_name_status(""), Vec::<FileEntry>::new());
}

#[test]
fn parse_name_status_blank_lines() {
    let output = "\n  \nA\tfoo.rs\n\n";
    let files = parse_name_status(output);
    assert_eq!(
        files,
        vec![FileEntry {
            path: "foo.rs".into(),
            status: FileStatus::Added,
        }]
    );
}

#[test]
fn parse_name_status_skips_rename() {
    // Renames show as R100, which we skip
    let output = "R100\told.rs\tnew.rs\nM\tkeep.rs\n";
    let files = parse_name_status(output);
    // R100 line has tab-separated old\tnew, splitn(2, '\t') gives ("R100", "old.rs\tnew.rs")
    // status "R100" doesn't match A/M/D, so it's skipped
    assert_eq!(
        files,
        vec![FileEntry {
            path: "keep.rs".into(),
            status: FileStatus::Modified,
        }]
    );
}

#[test]
fn parse_name_status_single_added() {
    let output = "A\tnew_file.txt\n";
    let files = parse_name_status(output);
    assert_eq!(
        files,
        vec![FileEntry {
            path: "new_file.txt".into(),
            status: FileStatus::Added,
        }]
    );
}

#[test]
fn parse_name_status_path_with_spaces() {
    let output = "M\tpath with spaces/file.rs\n";
    let files = parse_name_status(output);
    assert_eq!(
        files,
        vec![FileEntry {
            path: "path with spaces/file.rs".into(),
            status: FileStatus::Modified,
        }]
    );
}

#[test]
fn parse_name_status_no_trailing_newline() {
    let output = "A\tfoo.rs";
    let files = parse_name_status(output);
    assert_eq!(
        files,
        vec![FileEntry {
            path: "foo.rs".into(),
            status: FileStatus::Added,
        }]
    );
}

#[test]
fn file_status_display() {
    assert_eq!(FileStatus::Added.to_string(), "A");
    assert_eq!(FileStatus::Modified.to_string(), "M");
    assert_eq!(FileStatus::Deleted.to_string(), "D");
}
