use rv::app::Panel;
use rv::diff::{RowKind, SideContent};
use rv::ui::{
    directory_label, help_text, hunk_separator_cells, indent, lineno_text, lineno_width,
    side_by_side_layout, side_cells, status_label, truncate_to_width, SideBySideLayout, SideCells,
};
use rv::git::FileStatus;

#[test]
fn lineno_width_counts_digits() {
    assert_eq!(lineno_width(0), 1);
    assert_eq!(lineno_width(9), 1);
    assert_eq!(lineno_width(10), 2);
    assert_eq!(lineno_width(12345), 5);
    assert_eq!(lineno_width(usize::MAX), usize::MAX.to_string().len());
}

#[test]
fn lineno_text_right_aligns() {
    assert_eq!(lineno_text(5, 3), "  5");
    assert_eq!(lineno_text(1234, 2), "1234");
    assert_eq!(lineno_text(0, 1), "0");
}

#[test]
fn truncate_ascii_and_tabs() {
    assert_eq!(truncate_to_width("hello", 3), ("hel".to_string(), 3));
    assert_eq!(truncate_to_width("hi", 10), ("hi".to_string(), 2));
    assert_eq!(truncate_to_width("\tx", 5), ("    x".to_string(), 5));
    assert_eq!(truncate_to_width("\tx", 3), (String::new(), 0));
}

#[test]
fn truncate_uses_unicode_widths() {
    // Wide characters take two columns, control characters none.
    assert_eq!(truncate_to_width("中文", 3), ("中".to_string(), 2));
    assert_eq!(truncate_to_width("a\u{7}b", 2), ("a\u{7}b".to_string(), 2));
}

#[test]
fn layout_of_side_by_side_panel() {
    assert_eq!(side_by_side_layout(9, 10, 5, 0, 3), None);
    assert_eq!(side_by_side_layout(80, 0, 5, 0, 3), None);
    assert_eq!(
        side_by_side_layout(80, 10, 120, 2, 30),
        Some(SideBySideLayout { ln_width: 3, content_width: 34, start: 2, end: 12 })
    );
    assert_eq!(
        side_by_side_layout(12, 10, 123456, 40, 30),
        Some(SideBySideLayout { ln_width: 6, content_width: 1, start: 30, end: 30 })
    );
}

#[test]
fn separator_cells() {
    let cells = hunk_separator_cells(20, 2, 5, 3);
    assert_eq!(cells.lineno, " ~");
    assert_eq!(cells.left, "~~~~~");
    assert_eq!(cells.right, "~~~~~~");
    let cells = hunk_separator_cells(30, 2, 5, 3);
    assert_eq!(cells.right, "~".repeat(16));
    let cells = hunk_separator_cells(10, 2, 5, 3);
    assert_eq!(cells.right, "~~~~~");
}

#[test]
fn side_cells_fill_and_blank() {
    let side = Some(SideContent { lineno: 7, content: "abcdef".into(), kind: RowKind::Added });
    match side_cells(&side, 3, 4) {
        SideCells::Filled { lineno, text, padding } => {
            assert_eq!(lineno, "  7");
            assert_eq!(text, "abcd");
            assert_eq!(padding, 0);
        }
        SideCells::Blank { .. } => panic!("expected a filled side"),
    }
    let short = Some(SideContent { lineno: 7, content: "ab".into(), kind: RowKind::Context });
    match side_cells(&short, 1, 4) {
        SideCells::Filled { padding, .. } => assert_eq!(padding, 2),
        SideCells::Blank { .. } => panic!("expected a filled side"),
    }
    match side_cells(&None, 3, 4) {
        SideCells::Blank { width } => assert_eq!(width, 8),
        SideCells::Filled { .. } => panic!("expected a blank side"),
    }
}

#[test]
fn file_list_labels() {
    assert_eq!(indent(2), "    ");
    assert_eq!(directory_label(1, true, "src"), "  \u{25bc} src/");
    assert_eq!(directory_label(0, false, "ui"), "\u{25b6} ui/");
    assert!(help_text(Panel::Diff).contains("PgUp/PgDn"));
    assert!(help_text(Panel::FileList).starts_with(" j/k: navigate"));
    assert!(help_text(Panel::CommitList).contains("q/Esc: quit"));
}

#[test]
fn status_labels() {
    assert_eq!(status_label(FileStatus::Added), "A ");
    assert_eq!(status_label(FileStatus::Modified), "M ");
    assert_eq!(status_label(FileStatus::Deleted), "D ");
}
