use rv::diff::{parse_hunk_header, parse_side_by_side, RowKind, SideBySideRow};


// --- parse_hunk_header tests ---

#[test]
fn hunk_header_basic() {
    assert_eq!(parse_hunk_header("@@ -1,3 +1,4 @@"), Some((1, 1)));
}

#[test]
fn hunk_header_single_line() {
    assert_eq!(parse_hunk_header("@@ -1 +1 @@"), Some((1, 1)));
}

#[test]
fn hunk_header_with_context_label() {
    assert_eq!(
        parse_hunk_header("@@ -10,5 +12,7 @@ fn main()"),
        Some((10, 12))
    );
}

#[test]
fn hunk_header_not_a_header() {
    assert_eq!(parse_hunk_header("not a header"), None);
    assert_eq!(parse_hunk_header("--- a/file"), None);
    assert_eq!(parse_hunk_header("+++ b/file"), None);
}

// --- parse_side_by_side integration tests ---

#[test]
fn empty_input() {
    let diff = parse_side_by_side("");
    assert!(diff.rows.is_empty());
}

#[test]
fn preamble_only_no_hunks() {
    let input = "diff --git a/foo b/foo\nindex abc..def 100644\n--- a/foo\n+++ b/foo\n";
    let diff = parse_side_by_side(input);
    assert!(diff.rows.is_empty());
}

#[test]
fn context_only() {
    let input = "\
diff --git a/f b/f
--- a/f
+++ b/f
@@ -1,3 +1,3 @@
 line one
 line two
 line three
";
    let diff = parse_side_by_side(input);
    assert_eq!(diff.rows.len(), 3);
    for (i, row) in diff.rows.iter().enumerate() {
        match row {
            SideBySideRow::Line { left, right } => {
                let l = left.as_ref().unwrap();
                let r = right.as_ref().unwrap();
                assert_eq!(l.lineno, i + 1);
                assert_eq!(r.lineno, i + 1);
                assert_eq!(l.kind, RowKind::Context);
                assert_eq!(r.kind, RowKind::Context);
                assert_eq!(l.content, r.content);
            }
            _ => panic!("expected Line row"),
        }
    }
}

#[test]
fn add_only() {
    let input = "\
@@ -0,0 +1,2 @@
+new line one
+new line two
";
    let diff = parse_side_by_side(input);
    assert_eq!(diff.rows.len(), 2);
    match &diff.rows[0] {
        SideBySideRow::Line { left, right } => {
            assert!(left.is_none());
            let r = right.as_ref().unwrap();
            assert_eq!(r.lineno, 1);
            assert_eq!(r.content, "new line one");
            assert_eq!(r.kind, RowKind::Added);
        }
        _ => panic!("expected Line row"),
    }
    match &diff.rows[1] {
        SideBySideRow::Line { left, right } => {
            assert!(left.is_none());
            let r = right.as_ref().unwrap();
            assert_eq!(r.lineno, 2);
            assert_eq!(r.content, "new line two");
        }
        _ => panic!("expected Line row"),
    }
}

#[test]
fn delete_only() {
    let input = "\
@@ -1,2 +0,0 @@
-old line one
-old line two
";
    let diff = parse_side_by_side(input);
    assert_eq!(diff.rows.len(), 2);
    match &diff.rows[0] {
        SideBySideRow::Line { left, right } => {
            assert!(right.is_none());
            let l = left.as_ref().unwrap();
            assert_eq!(l.lineno, 1);
            assert_eq!(l.content, "old line one");
            assert_eq!(l.kind, RowKind::Deleted);
        }
        _ => panic!("expected Line row"),
    }
}

#[test]
fn modification_paired() {
    let input = "\
@@ -1,2 +1,2 @@
-old one
-old two
+new one
+new two
";
    let diff = parse_side_by_side(input);
    assert_eq!(diff.rows.len(), 2);
    match &diff.rows[0] {
        SideBySideRow::Line { left, right } => {
            let l = left.as_ref().unwrap();
            let r = right.as_ref().unwrap();
            assert_eq!(l.content, "old one");
            assert_eq!(l.kind, RowKind::Deleted);
            assert_eq!(l.lineno, 1);
            assert_eq!(r.content, "new one");
            assert_eq!(r.kind, RowKind::Added);
            assert_eq!(r.lineno, 1);
        }
        _ => panic!("expected Line row"),
    }
    match &diff.rows[1] {
        SideBySideRow::Line { left, right } => {
            let l = left.as_ref().unwrap();
            let r = right.as_ref().unwrap();
            assert_eq!(l.content, "old two");
            assert_eq!(r.content, "new two");
        }
        _ => panic!("expected Line row"),
    }
}

#[test]
fn modification_more_deletes_than_adds() {
    let input = "\
@@ -1,3 +1,1 @@
-old one
-old two
-old three
+new one
";
    let diff = parse_side_by_side(input);
    assert_eq!(diff.rows.len(), 3);
    // First row: paired
    match &diff.rows[0] {
        SideBySideRow::Line { left, right } => {
            assert!(left.is_some());
            assert!(right.is_some());
        }
        _ => panic!("expected Line row"),
    }
    // Rows 2-3: delete only (right is None)
    match &diff.rows[1] {
        SideBySideRow::Line { left, right } => {
            assert!(left.is_some());
            assert!(right.is_none());
        }
        _ => panic!("expected Line row"),
    }
    match &diff.rows[2] {
        SideBySideRow::Line { left, right } => {
            assert!(left.is_some());
            assert!(right.is_none());
        }
        _ => panic!("expected Line row"),
    }
}

#[test]
fn modification_more_adds_than_deletes() {
    let input = "\
@@ -1,1 +1,3 @@
-old one
+new one
+new two
+new three
";
    let diff = parse_side_by_side(input);
    assert_eq!(diff.rows.len(), 3);
    // First row: paired
    match &diff.rows[0] {
        SideBySideRow::Line { left, right } => {
            assert!(left.is_some());
            assert!(right.is_some());
        }
        _ => panic!("expected Line row"),
    }
    // Rows 2-3: add only (left is None)
    match &diff.rows[1] {
        SideBySideRow::Line { left, right } => {
            assert!(left.is_none());
            assert!(right.is_some());
        }
        _ => panic!("expected Line row"),
    }
    match &diff.rows[2] {
        SideBySideRow::Line { left, right } => {
            assert!(left.is_none());
            assert!(right.is_some());
        }
        _ => panic!("expected Line row"),
    }
}

#[test]
fn multiple_hunks_with_separator() {
    let input = "\
@@ -1,2 +1,2 @@
 context one
-old
+new
@@ -10,2 +10,2 @@
 context ten
-old ten
+new ten
";
    let diff = parse_side_by_side(input);
    // Hunk 1: context + modification = 2 rows
    // Separator: 1
    // Hunk 2: context + modification = 2 rows
    assert_eq!(diff.rows.len(), 5);
    assert_eq!(diff.rows[2], SideBySideRow::HunkSeparator);
}

#[test]
fn no_newline_marker_skipped() {
    let input = "\
@@ -1,1 +1,1 @@
-old
\\ No newline at end of file
+new
\\ No newline at end of file
";
    let diff = parse_side_by_side(input);
    assert_eq!(diff.rows.len(), 1);
    match &diff.rows[0] {
        SideBySideRow::Line { left, right } => {
            let l = left.as_ref().unwrap();
            let r = right.as_ref().unwrap();
            assert_eq!(l.content, "old");
            assert_eq!(r.content, "new");
        }
        _ => panic!("expected Line row"),
    }
}

#[test]
fn git_preamble_skipped() {
    let input = "\
diff --git a/src/main.rs b/src/main.rs
index 1234567..abcdefg 100644
--- a/src/main.rs
+++ b/src/main.rs
@@ -1,1 +1,1 @@
-old
+new
";
    let diff = parse_side_by_side(input);
    assert_eq!(diff.rows.len(), 1);
}

#[test]
fn adds_without_preceding_deletes() {
    let input = "\
@@ -1,2 +1,4 @@
 existing
+added one
+added two
 also existing
";
    let diff = parse_side_by_side(input);
    assert_eq!(diff.rows.len(), 4);
    // Row 0: context
    match &diff.rows[0] {
        SideBySideRow::Line { left, right } => {
            assert!(left.is_some());
            assert!(right.is_some());
            assert_eq!(left.as_ref().unwrap().kind, RowKind::Context);
        }
        _ => panic!("expected Line row"),
    }
    // Row 1: add only
    match &diff.rows[1] {
        SideBySideRow::Line { left, right } => {
            assert!(left.is_none());
            assert!(right.is_some());
            assert_eq!(right.as_ref().unwrap().content, "added one");
        }
        _ => panic!("expected Line row"),
    }
    // Row 2: add only
    match &diff.rows[2] {
        SideBySideRow::Line { left, right } => {
            assert!(left.is_none());
            assert!(right.is_some());
            assert_eq!(right.as_ref().unwrap().content, "added two");
        }
        _ => panic!("expected Line row"),
    }
    // Row 3: context
    match &diff.rows[3] {
        SideBySideRow::Line { left, right } => {
            assert!(left.is_some());
            assert!(right.is_some());
            assert_eq!(left.as_ref().unwrap().kind, RowKind::Context);
        }
        _ => panic!("expected Line row"),
    }
}

#[test]
fn hunk_line_numbers_start_correctly() {
    let input = "\
@@ -5,2 +10,2 @@
 context
-deleted
+added
";
    let diff = parse_side_by_side(input);
    assert_eq!(diff.rows.len(), 2);
    match &diff.rows[0] {
        SideBySideRow::Line { left, right } => {
            assert_eq!(left.as_ref().unwrap().lineno, 5);
            assert_eq!(right.as_ref().unwrap().lineno, 10);
        }
        _ => panic!("expected Line row"),
    }
    match &diff.rows[1] {
        SideBySideRow::Line { left, right } => {
            assert_eq!(left.as_ref().unwrap().lineno, 6);
            assert_eq!(right.as_ref().unwrap().lineno, 11);
        }
        _ => panic!("expected Line row"),
    }
}

#[test]
fn single_hunk_no_separator() {
    let input = "\
@@ -1,1 +1,1 @@
-old
+new
";
    let diff = parse_side_by_side(input);
    for row in &diff.rows {
        assert_ne!(*row, SideBySideRow::HunkSeparator);
    }
}
