use ratatui::text::Text;
use rv::app::{Action, App, KeyCode, Panel};
use rv::diff::{parse_hunk_header, parse_side_by_side, try_parse_side_by_side, RowKind, SideBySideRow};
use rv::error::Error;
use rv::git::{parse_name_status, worktree_diff_args, Commit, FileEntry, FileStatus};
use rv::scroll::ScrollState;
use rv::tree::{FileTree, VisibleItemKind};

fn entry(path: &str, status: FileStatus) -> FileEntry {
    FileEntry { path: path.into(), status }
}

fn visible(s: &ScrollState) -> bool {
    s.offset <= s.cursor && (s.visible_rows == 0 || s.cursor < s.offset + s.visible_rows)
}

#[test]
fn scroll_moves_keep_cursor_visible_and_in_bounds() {
    let mut s = ScrollState { cursor: 0, offset: 0, visible_rows: 4 };
    let n = 11;
    for step in 0..40 {
        match step % 7 {
            0 | 1 | 2 => {
                s.down(n);
            }
            3 => {
                s.up();
            }
            4 => s.page_down(n),
            5 => s.page_up(),
            _ => s.last(n),
        }
        assert!(visible(&s), "step {}", step);
        assert!(s.cursor < n);
        let (start, end) = s.visible_range(n);
        assert!(start <= s.cursor && s.cursor < end);
    }
}

#[test]
fn scroll_down_then_up_restores_cursor() {
    let mut s = ScrollState { cursor: 3, offset: 2, visible_rows: 2 };
    assert!(s.down(10));
    assert_eq!(s.offset, 3);
    assert!(s.up());
    assert_eq!(s.cursor, 3);
}

#[test]
fn scroll_clamp_brings_cursor_back() {
    let mut s = ScrollState { cursor: 40, offset: 38, visible_rows: 5 };
    s.clamp(3);
    assert_eq!((s.cursor, s.offset), (2, 2));
}

#[test]
fn scroll_page_down_without_window() {
    let mut s = ScrollState { cursor: 2, offset: 0, visible_rows: 0 };
    s.page_down(10);
    assert_eq!((s.cursor, s.offset), (2, 0));
    assert!(!s.down(0));
}

#[test]
fn hunk_header_edge_cases() {
    assert_eq!(parse_hunk_header("@@ -+5 ++7 @@"), Some((5, 7)));
    assert_eq!(parse_hunk_header("@@  -3\t+4  @@"), Some((3, 4)));
    assert_eq!(parse_hunk_header("@@ -1 +2"), Some((1, 2)));
    assert_eq!(parse_hunk_header("@@ -1,2 +x @@"), None);
    assert_eq!(parse_hunk_header("@@ -1,2 @@"), None);
    assert_eq!(parse_hunk_header("@@ -99999999999999999999999 +1 @@"), None);
    assert_eq!(parse_hunk_header("@@@ -1 +1 @@"), None);
    assert_eq!(parse_hunk_header("@@ +1 -1 @@"), None);
    assert_eq!(parse_hunk_header("@@ -- +1 @@"), None);
}

#[test]
fn crlf_lines_lose_their_carriage_return() {
    let diff = parse_side_by_side("@@ -1 +1 @@\r\n-a\r\n+b\r\n");
    assert_eq!(diff.rows.len(), 1);
    match &diff.rows[0] {
        SideBySideRow::Line { left, right } => {
            assert_eq!(left.as_ref().unwrap().content, "a");
            assert_eq!(right.as_ref().unwrap().content, "b");
        }
        _ => panic!("expected Line row"),
    }
}

#[test]
fn rows_are_well_formed_and_keep_every_line() {
    let input = "\
@@ -3,4 +3,5 @@
 keep
-gone one
-gone two
+came
 also kept
+new at end
@@ -20,1 +21,1 @@
-x
+y
";
    let diff = parse_side_by_side(input);
    let mut left = Vec::new();
    let mut right = Vec::new();
    let mut separators = 0;
    for row in &diff.rows {
        match row {
            SideBySideRow::HunkSeparator => separators += 1,
            SideBySideRow::Line { left: l, right: r } => {
                assert!(l.is_some() || r.is_some());
                if let Some(l) = l {
                    assert_ne!(l.kind, RowKind::Added);
                    left.push((l.lineno, l.content.clone()));
                }
                if let Some(r) = r {
                    assert_ne!(r.kind, RowKind::Deleted);
                    right.push((r.lineno, r.content.clone()));
                }
            }
        }
    }
    assert_eq!(separators, 1);
    let expect_left: Vec<(usize, String)> = vec![
        (3, "keep".into()),
        (4, "gone one".into()),
        (5, "gone two".into()),
        (6, "also kept".into()),
        (20, "x".into()),
    ];
    let expect_right: Vec<(usize, String)> = vec![
        (3, "keep".into()),
        (4, "came".into()),
        (5, "also kept".into()),
        (6, "new at end".into()),
        (21, "y".into()),
    ];
    assert_eq!(left, expect_left);
    assert_eq!(right, expect_right);
    assert_eq!(diff.max_lineno(), 21);
}

#[test]
fn empty_hunk_gives_leading_separator() {
    let diff = parse_side_by_side("@@ -1 +1 @@\n@@ -5 +5 @@\n context\n");
    assert_eq!(diff.rows.len(), 2);
    assert_eq!(diff.rows[0], SideBySideRow::HunkSeparator);
}

#[test]
fn lines_outside_hunks_and_unknown_lines_are_ignored() {
    let diff = parse_side_by_side("-not in a hunk\n@@ -1 +1 @@\n?odd\n\\ marker\n a\n");
    assert_eq!(diff.rows.len(), 1);
    assert_eq!(diff.max_lineno(), 1);
}

#[test]
fn line_number_overflow_is_refused() {
    let max = usize::MAX.to_string();
    let input = format!("@@ -{} +1 @@\n a\n", max);
    assert!(try_parse_side_by_side(&input).is_none());
    let fits = format!("@@ -{} +1 @@\n+a\n", max);
    assert_eq!(try_parse_side_by_side(&fits).unwrap().rows.len(), 1);
}

#[test]
fn name_status_trims_and_skips() {
    let output = "  M \t src/lib.rs  \r\nno tab here\n\tD\nX\tweird.rs\nD\told.rs";
    assert_eq!(
        parse_name_status(output),
        vec![entry("src/lib.rs", FileStatus::Modified), entry("old.rs", FileStatus::Deleted)]
    );
}

#[test]
fn worktree_args() {
    assert_eq!(worktree_diff_args(), vec!["diff".to_string(), "--no-ext-diff".to_string()]);
}

#[test]
fn error_message() {
    assert_eq!(Error::Git("boom".into()).to_string(), "git: boom");
}

#[test]
fn toggle_twice_restores_tree() {
    let files = vec![
        entry("src/ui/tree.rs", FileStatus::Added),
        entry("src/main.rs", FileStatus::Modified),
        entry("lib/x.rs", FileStatus::Deleted),
    ];
    let mut tree = FileTree::build(&files);
    let before = tree.visible_items(&files);
    for i in 0..7 {
        let first = tree.toggle_at_visible(i);
        let second = tree.toggle_at_visible(i);
        assert_eq!(first, second);
        assert_eq!(tree.visible_items(&files), before);
    }
}

#[test]
fn toggle_on_nested_file_changes_nothing() {
    let files = vec![entry("src/main.rs", FileStatus::Added), entry("lib/x.rs", FileStatus::Added)];
    let mut tree = FileTree::build(&files);
    // visible: src/(0), main.rs(1), lib/(2), x.rs(3)
    let before = tree.visible_items(&files);
    for i in [1, 3, 4, 100] {
        assert!(!tree.toggle_at_visible(i));
        assert!(tree.roots[0].expanded);
        assert!(tree.roots[1].expanded);
        assert_eq!(tree.visible_items(&files), before);
    }
    assert!(tree.toggle_at_visible(2));
    assert!(!tree.roots[1].expanded);
    assert_eq!(tree.visible_items(&files).len(), 3);
    // Collapsed lib/: src/(0), main.rs(1), lib/(2); row 1 is still a file.
    assert!(!tree.toggle_at_visible(1));
    assert!(!tree.roots[1].expanded);
}

#[test]
fn toggle_reports_exactly_directory_rows() {
    let files = vec![
        entry("a/b/c.rs", FileStatus::Added),
        entry("a/d.rs", FileStatus::Modified),
        entry("e.rs", FileStatus::Deleted),
        entry("x/y.rs", FileStatus::Added),
    ];
    let tree = FileTree::build(&files);
    let items = tree.visible_items(&files);
    for i in 0..items.len() + 2 {
        let mut t = FileTree::build(&files);
        let is_dir = i < items.len() && matches!(items[i].kind, VisibleItemKind::Directory { .. });
        assert_eq!(t.toggle_at_visible(i), is_dir, "row {}", i);
        if !is_dir {
            assert_eq!(t.visible_items(&files), items);
        }
    }
}

#[test]
fn built_tree_lists_each_file_once() {
    let files = vec![
        entry("a/b/c.rs", FileStatus::Added),
        entry("a/d.rs", FileStatus::Modified),
        entry("e.rs", FileStatus::Deleted),
        entry("a/b/f.rs", FileStatus::Added),
        entry("a//g.rs", FileStatus::Added),
    ];
    let tree = FileTree::build(&files);
    let items = tree.visible_items(&files);
    let mut seen = vec![0; files.len()];
    for item in &items {
        if let VisibleItemKind::File { entry_index, status } = item.kind {
            seen[entry_index] += 1;
            assert_eq!(status, files[entry_index].status);
        }
    }
    assert_eq!(seen, vec![1; files.len()]);
    // a/, b/, c.rs, f.rs, d.rs, "" dir, g.rs, e.rs
    assert_eq!(items.len(), 8);
    assert_eq!(items[5].name, "");
    assert_eq!(items[5].depth, 1);
}

fn app_with(files: Vec<FileEntry>) -> App<'static> {
    let mut app = App::new(vec![Commit {
        hash: "abc".into(),
        subject: "subject".into(),
        parent_hash: None,
    }]);
    app.set_commit_files(files);
    app.active_panel = Panel::FileList;
    app.file_scroll.visible_rows = 3;
    app
}

#[test]
fn load_diff_names_the_file_under_the_cursor() {
    let mut app = app_with(vec![
        entry("src/a.rs", FileStatus::Added),
        entry("b.rs", FileStatus::Modified),
    ]);
    for key in [KeyCode::Char('j'), KeyCode::Char('G'), KeyCode::Char('k'), KeyCode::Home] {
        if let Action::LoadDiff(e) = app.handle_key(key) {
            let file = app.selected_file().unwrap();
            assert_eq!(file.path, app.files[e].path);
            assert_eq!(app.last_selected_file, Some(e));
        }
    }
}

#[test]
fn diff_panel_needs_a_loaded_diff() {
    let mut app = app_with(vec![entry("a.rs", FileStatus::Added)]);
    assert_eq!(app.handle_key(KeyCode::Tab), Action::Render);
    assert_eq!(app.active_panel, Panel::FileList);
    app.set_diff_content(Text::raw("x"), 1);
    app.handle_key(KeyCode::Tab);
    assert_eq!(app.active_panel, Panel::Diff);
    assert_eq!(app.handle_key(KeyCode::Other), Action::Nothing);
    assert_eq!(app.handle_key(KeyCode::PageDown), Action::Render);
    assert_eq!(app.diff_scroll.cursor, 0);
}

#[test]
fn collapse_keeps_cursor_on_a_row() {
    let mut app = app_with(vec![
        entry("src/a.rs", FileStatus::Added),
        entry("src/b.rs", FileStatus::Added),
    ]);
    app.handle_key(KeyCode::Char('G'));
    assert_eq!(app.file_scroll.cursor, 2);
    app.file_scroll.cursor = 0;
    app.handle_key(KeyCode::Enter);
    assert_eq!(app.visible_items.len(), 1);
    assert!(app.file_scroll.cursor < app.visible_items.len());
    assert_eq!(app.handle_key(KeyCode::Char('q')), Action::Quit);
}

#[test]
fn commit_list_select_and_quit() {
    let mut app: App<'static> = App::new(vec![]);
    assert_eq!(app.handle_key(KeyCode::Down), Action::SelectCommit(0));
    assert_eq!(app.handle_key(KeyCode::Down), Action::Render);
    assert!(app.selected_commit().is_none());
    assert_eq!(app.handle_key(KeyCode::Enter), Action::Nothing);
    assert_eq!(app.handle_key(KeyCode::Esc), Action::Quit);
}

#[test]
fn header_written_from_numbers_reads_back() {
    for (a, b, c, d) in [(0, 0, 0, 0), (1, 2, 3, 4), (120, 7, 98765, 10), (usize::MAX, 1, 5, usize::MAX)] {
        for rest in ["", " fn main() {", " @@ x", "\tanything"] {
            let line = format!("@@ -{},{} +{},{} @@{}", a, b, c, d, rest);
            assert_eq!(parse_hunk_header(&line), Some((a, c)), "{}", line);
        }
        let short = format!("@@ -{} +{} @@", a, c);
        assert_eq!(parse_hunk_header(&short), Some((a, c)));
    }
    for line in ["@@-1 +1 @@", " @@ -1 +1 @@", "@ -1 +1 @@", "", "@@"] {
        assert_eq!(parse_hunk_header(line), None, "{}", line);
    }
}

#[test]
fn preamble_before_first_hunk_adds_nothing() {
    let preamble = "diff --git a/x.rs b/x.rs\nindex 1234..5678 100644\n--- a/x.rs\n+++ b/x.rs\n";
    let body = "@@ -3,2 +3,3 @@\n keep\n-old\n+new\n+more\n";
    let joined = format!("{}{}", preamble, body);
    assert_eq!(parse_side_by_side(&joined), parse_side_by_side(body));
    assert!(parse_side_by_side(preamble).rows.is_empty());
    assert_eq!(parse_side_by_side(&joined).rows.len(), 3);
}

#[test]
fn name_status_outputs_join_line_by_line() {
    let cases = [
        ("M\tsrc/a.rs", "A\tb.rs\nD\tc.rs"),
        ("M\tsrc/a.rs\r", "A\tb.rs"),
        ("", "D\tgone.rs\n"),
        ("A\tx.rs\n", ""),
        ("R100\told\tnew", "M\tkept.rs"),
    ];
    for (a, b) in cases {
        let joined = parse_name_status(&format!("{}\n{}", a, b));
        let mut expected = parse_name_status(a);
        expected.extend(parse_name_status(b));
        assert_eq!(joined, expected, "{:?} {:?}", a, b);
    }
}

#[test]
fn built_tree_rows_are_files_and_directory_prefixes() {
    // Directory prefixes: a, a/b, a/"", x, x/y, x/y/z  (6); files: 6.
    let files = vec![
        entry("a/b/c.rs", FileStatus::Added),
        entry("a/d.rs", FileStatus::Modified),
        entry("e.rs", FileStatus::Deleted),
        entry("a/b/f.rs", FileStatus::Added),
        entry("a//g.rs", FileStatus::Added),
        entry("x/y/z/w.rs", FileStatus::Added),
    ];
    let tree = FileTree::build(&files);
    assert_eq!(tree.visible_items(&files).len(), files.len() + 6);
    let none: Vec<FileEntry> = Vec::new();
    assert!(FileTree::build(&none).visible_items(&none).is_empty());
}

#[test]
fn resize_fits_all_three_panels() {
    let mut app = App::new(Vec::new());
    app.set_visible_rows(24);
    assert_eq!(app.commit_scroll.visible_rows, 21);
    assert_eq!(app.file_scroll.visible_rows, 21);
    assert_eq!(app.diff_scroll.visible_rows, 21);
    for h in [0u16, 1, 3] {
        app.set_visible_rows(h);
        assert_eq!(app.commit_scroll.visible_rows, 1);
        assert_eq!(app.file_scroll.visible_rows, 1);
        assert_eq!(app.diff_scroll.visible_rows, 1);
    }
    app.set_visible_rows(4);
    assert_eq!(app.diff_scroll.visible_rows, 1);
    app.set_visible_rows(u16::MAX);
    assert_eq!(app.file_scroll.visible_rows, u16::MAX as usize - 3);
    assert_eq!(app.commit_scroll.cursor, 0);
}

#[test]
fn opening_files_selects_the_first_file_row() {
    let mut app = App::new(Vec::new());
    let first = app.open_files(vec![entry("z.rs", FileStatus::Added), entry("a/b.rs", FileStatus::Modified)]);
    // rows: z.rs, a/, b.rs
    assert_eq!(first, Some(0));
    assert_eq!(app.last_selected_file, Some(0));
    assert_eq!(app.active_panel, Panel::FileList);
    let mut app = App::new(Vec::new());
    let first = app.open_files(vec![entry("a/b.rs", FileStatus::Modified)]);
    assert_eq!(first, None);
    assert_eq!(app.last_selected_file, None);
    assert_eq!(app.active_panel, Panel::FileList);
    let mut app = App::new(Vec::new());
    assert_eq!(app.open_files(Vec::new()), None);
    assert_eq!(app.active_panel, Panel::CommitList);
}
