//! The state of the three panels and how keys change it.
use vstd::prelude::*;

use ratatui::text::Text;

use crate::git::{entries_view, Commit, EntryModel, FileEntry};
use crate::scroll::{lemma_moves_keep_cursor_in_bounds, ScrollState};
use crate::tree::{
    build_tree, fits_from, flipped, items_view, lemma_fits_listable, lemma_toggle_directory_row,
    lemma_walk_basics, lemma_walk_fits, paths_of, visible_from, walk_from, FileTree, ItemModel,
    NodeModel, VisibleItem, VisibleItemKind,
};

verus! {

/// Rendered text of a diff, carried by the state and drawn by the
/// terminal front end.
#[verifier::external_type_specification]
#[verifier::external_body]
pub struct ExText<'a>(Text<'a>);

/// The three panels: the commit list, the file list and the diff.
#[derive(Debug, Clone, Copy, PartialEq, Eq, Structural)]
pub enum Panel {
    CommitList,
    FileList,
    Diff,
}

/// What the front end is asked to do after a key: nothing (the key is not
/// used), quit, redraw, load the files of a commit, or load a file's diff.
#[derive(Debug, Clone, Copy, PartialEq, Eq, Structural)]
pub enum Action {
    Nothing,
    Quit,
    Render,
    SelectCommit(usize),
    LoadDiff(usize),
}

/// The keys the panels tell apart; every other key is `Other`.
#[derive(Debug, Clone, Copy, PartialEq, Eq, Structural)]
pub enum KeyCode {
    Char(char),
    Esc,
    Up,
    Down,
    Home,
    End,
    Tab,
    Enter,
    PageUp,
    PageDown,
    Other,
}

/// The state of the three panels.
pub struct App<'a> {
    pub commits: Vec<Commit>,
    pub commit_scroll: ScrollState,
    pub files: Vec<FileEntry>,
    pub tree: FileTree,
    pub visible_items: Vec<VisibleItem>,
    pub file_scroll: ScrollState,
    pub diff_scroll: ScrollState,
    pub active_panel: Panel,
    pub diff_content: Option<Text<'a>>,
    pub diff_line_count: usize,
    pub last_selected_commit: Option<usize>,
    pub last_selected_file: Option<usize>,
}

/// The state of the panels as the contracts see it: everything but the
/// commits themselves and the text of the loaded diff.
pub struct AppView {
    pub commit_count: nat,
    pub files: Seq<EntryModel>,
    pub tree: Seq<NodeModel>,
    pub items: Seq<ItemModel>,
    pub commit_scroll: ScrollState,
    pub file_scroll: ScrollState,
    pub diff_scroll: ScrollState,
    pub active_panel: Panel,
    pub has_diff: bool,
    pub diff_line_count: usize,
    pub last_selected_commit: Option<usize>,
    pub last_selected_file: Option<usize>,
}

impl<'a> View for App<'a> {
    type V = AppView;

    open spec fn view(&self) -> AppView {
        AppView {
            commit_count: self.commits@.len(),
            files: entries_view(self.files@),
            tree: self.tree@,
            items: items_view(self.visible_items@),
            commit_scroll: self.commit_scroll,
            file_scroll: self.file_scroll,
            diff_scroll: self.diff_scroll,
            active_panel: self.active_panel,
            has_diff: self.diff_content is Some,
            diff_line_count: self.diff_line_count,
            last_selected_commit: self.last_selected_commit,
            last_selected_file: self.last_selected_file,
        }
    }
}

/// The file list shows exactly the rows of the tree, and the tree fits the
/// files (so its rows can be listed however it is expanded).
pub open spec fn rows_consistent(v: AppView) -> bool {
    &&& v.items == visible_from(v.tree, 0, v.files, 0)
    &&& fits_from(v.tree, 0, 0, v.files.len())
}

/// The entry index of the file on row `i`, if that row is a file.
pub open spec fn file_at(items: Seq<ItemModel>, i: int) -> Option<usize> {
    if 0 <= i < items.len() {
        match items[i].kind {
            VisibleItemKind::File { entry_index, .. } => Some(entry_index),
            VisibleItemKind::Directory { .. } => None,
        }
    } else {
        None
    }
}

/// After the commit cursor moved to `s`: a commit not selected before is
/// selected; otherwise the panels are only redrawn.
pub open spec fn after_commit_move(v: AppView, s: ScrollState) -> (AppView, Action) {
    let moved = AppView { commit_scroll: s, ..v };
    if Some(s.cursor) != v.last_selected_commit {
        (AppView { last_selected_commit: Some(s.cursor), ..moved }, Action::SelectCommit(s.cursor))
    } else {
        (moved, Action::Render)
    }
}

/// After the file cursor moved to `s`: a file row not selected before asks
/// for its diff; moving onto a directory row from a file clears the diff.
pub open spec fn after_file_move(v: AppView, s: ScrollState) -> (AppView, Action) {
    let moved = AppView { file_scroll: s, ..v };
    let current = file_at(v.items, s.cursor as int);
    if current != v.last_selected_file {
        match current {
            Some(e) => (AppView { last_selected_file: current, ..moved }, Action::LoadDiff(e)),
            None => (
                AppView {
                    last_selected_file: current,
                    has_diff: false,
                    diff_line_count: 0,
                    ..moved
                },
                Action::Render,
            ),
        }
    } else {
        (moved, Action::Render)
    }
}

/// A key pressed in the commit list.
pub open spec fn commit_list_step(v: AppView, key: KeyCode) -> (AppView, Action) {
    match key {
        KeyCode::Char('q') | KeyCode::Esc => (v, Action::Quit),
        KeyCode::Char('j') | KeyCode::Down => after_commit_move(
            v,
            v.commit_scroll.down_spec(v.commit_count as usize),
        ),
        KeyCode::Char('k') | KeyCode::Up => after_commit_move(v, v.commit_scroll.up_spec()),
        KeyCode::Char('g') | KeyCode::Home => after_commit_move(v, v.commit_scroll.reset_spec()),
        KeyCode::Char('G') | KeyCode::End => after_commit_move(
            v,
            v.commit_scroll.last_spec(v.commit_count as usize),
        ),
        KeyCode::Tab => (
            if v.files.len() > 0 {
                AppView { active_panel: Panel::FileList, ..v }
            } else {
                v
            },
            Action::Render,
        ),
        _ => (v, Action::Nothing),
    }
}

/// Enter in the file list: a directory row under the cursor is collapsed
/// or expanded, the rows are listed again and the cursor kept on them.
pub open spec fn enter_step(v: AppView) -> AppView {
    let c = v.file_scroll.cursor;
    if c < v.items.len() && v.items[c as int].kind is Directory {
        let tree = walk_from(v.tree, 0, c as nat, 0).nodes;
        let items = visible_from(tree, 0, v.files, 0);
        AppView { tree, items, file_scroll: v.file_scroll.clamp_spec(items.len() as usize), ..v }
    } else {
        v
    }
}

/// A key pressed in the file list.
pub open spec fn file_list_step(v: AppView, key: KeyCode) -> (AppView, Action) {
    match key {
        KeyCode::Char('q') => (v, Action::Quit),
        KeyCode::Esc => (AppView { active_panel: Panel::CommitList, ..v }, Action::Render),
        KeyCode::Char('j') | KeyCode::Down => after_file_move(
            v,
            v.file_scroll.down_spec(v.items.len() as usize),
        ),
        KeyCode::Char('k') | KeyCode::Up => after_file_move(v, v.file_scroll.up_spec()),
        KeyCode::Char('g') | KeyCode::Home => after_file_move(v, v.file_scroll.reset_spec()),
        KeyCode::Char('G') | KeyCode::End => after_file_move(
            v,
            v.file_scroll.last_spec(v.items.len() as usize),
        ),
        KeyCode::Enter => (enter_step(v), Action::Render),
        KeyCode::Tab => (
            if v.has_diff {
                AppView { active_panel: Panel::Diff, ..v }
            } else {
                v
            },
            Action::Render,
        ),
        _ => (v, Action::Nothing),
    }
}

/// A key pressed in the diff panel.
pub open spec fn diff_step(v: AppView, key: KeyCode) -> (AppView, Action) {
    let n = v.diff_line_count;
    match key {
        KeyCode::Char('q') | KeyCode::Esc | KeyCode::Tab => (
            AppView { active_panel: Panel::FileList, ..v },
            Action::Render,
        ),
        KeyCode::Char('j') | KeyCode::Down => (
            AppView { diff_scroll: v.diff_scroll.down_spec(n), ..v },
            Action::Render,
        ),
        KeyCode::Char('k') | KeyCode::Up => (
            AppView { diff_scroll: v.diff_scroll.up_spec(), ..v },
            Action::Render,
        ),
        KeyCode::Char('g') | KeyCode::Home => (
            AppView { diff_scroll: v.diff_scroll.reset_spec(), ..v },
            Action::Render,
        ),
        KeyCode::Char('G') | KeyCode::End => (
            AppView { diff_scroll: v.diff_scroll.last_spec(n), ..v },
            Action::Render,
        ),
        KeyCode::PageDown => (
            AppView { diff_scroll: v.diff_scroll.page_down_spec(n), ..v },
            Action::Render,
        ),
        KeyCode::PageUp => (
            AppView { diff_scroll: v.diff_scroll.page_up_spec(), ..v },
            Action::Render,
        ),
        _ => (v, Action::Nothing),
    }
}

/// A key pressed in whichever panel is active: the new state and the action
/// asked of the front end.
pub open spec fn step(v: AppView, key: KeyCode) -> (AppView, Action) {
    match v.active_panel {
        Panel::CommitList => commit_list_step(v, key),
        Panel::FileList => file_list_step(v, key),
        Panel::Diff => diff_step(v, key),
    }
}

/// Moving down one row keeps the window's arithmetic within a `usize`.
pub open spec fn down_safe(s: ScrollState, n: usize) -> bool {
    s.can_move_down(n) && s.visible_rows > 0 ==> s.offset + s.visible_rows <= usize::MAX
}

/// Moving down one page keeps the cursor's and window's arithmetic within a
/// `usize`.
pub open spec fn page_down_safe(s: ScrollState, n: usize) -> bool {
    &&& n > 0 ==> s.cursor + s.visible_rows <= usize::MAX
    &&& n > 0 && s.visible_rows > 0 ==> s.offset + s.visible_rows <= usize::MAX
}

/// The key's scrolling stays within a `usize`.
pub open spec fn key_safe(v: AppView, key: KeyCode) -> bool {
    let down = key == KeyCode::Char('j') || key == KeyCode::Down;
    match v.active_panel {
        Panel::CommitList => down ==> down_safe(v.commit_scroll, v.commit_count as usize),
        Panel::FileList => down ==> down_safe(v.file_scroll, v.items.len() as usize),
        Panel::Diff => {
            &&& down ==> down_safe(v.diff_scroll, v.diff_line_count)
            &&& key == KeyCode::PageDown ==> page_down_safe(v.diff_scroll, v.diff_line_count)
        },
    }
}

impl<'a> App<'a> {
    /// The file list shows the rows of the tree, which fits the files.
    pub open spec fn well_formed(&self) -> bool {
        rows_consistent(self@)
    }

    /// The panels for the given commits: the commit list is active, no
    /// commit's files are loaded yet and nothing is selected.
    pub fn new(commits: Vec<Commit>) -> (app: Self)
        ensures
            app.commits == commits,
            app@ == (AppView {
                commit_count: commits@.len(),
                files: Seq::empty(),
                tree: Seq::empty(),
                items: Seq::empty(),
                commit_scroll: ScrollState { cursor: 0, offset: 0, visible_rows: 0 },
                file_scroll: ScrollState { cursor: 0, offset: 0, visible_rows: 0 },
                diff_scroll: ScrollState { cursor: 0, offset: 0, visible_rows: 0 },
                active_panel: Panel::CommitList,
                has_diff: false,
                diff_line_count: 0,
                last_selected_commit: None,
                last_selected_file: None,
            }),
            app.well_formed(),
    {
        let no_files: Vec<FileEntry> = Vec::new();
        let tree = FileTree::build(no_files.as_slice());
        let app = App {
            commits,
            commit_scroll: ScrollState { cursor: 0, offset: 0, visible_rows: 0 },
            files: Vec::new(),
            tree,
            visible_items: Vec::new(),
            file_scroll: ScrollState { cursor: 0, offset: 0, visible_rows: 0 },
            diff_scroll: ScrollState { cursor: 0, offset: 0, visible_rows: 0 },
            active_panel: Panel::CommitList,
            diff_content: None,
            diff_line_count: 0,
            last_selected_commit: None,
            last_selected_file: None,
        };
        proof {
            assert(paths_of(entries_view(no_files@)) =~= Seq::<Seq<char>>::empty());
            assert(app@.tree =~= Seq::<NodeModel>::empty());
            assert(app@.files =~= Seq::<EntryModel>::empty());
            assert(app@.items =~= Seq::<ItemModel>::empty());
        }
        app
    }

    /// The commit under the commit cursor, if any.
    pub fn selected_commit(&self) -> (c: Option<&Commit>)
        ensures
            c == (if self.commit_scroll.cursor < self.commits.len() {
                Some(&self.commits[self.commit_scroll.cursor as int])
            } else {
                None
            }),
    {
        let cursor = self.commit_scroll.cursor;
        if cursor < self.commits.len() {
            Some(&self.commits[cursor])
        } else {
            None
        }
    }

    /// Set files for the selected commit. Rebuilds tree and visible items.
    /// Returns the selected file entry index if a file is selected.
    pub fn set_commit_files(&mut self, files: Vec<FileEntry>) -> (first: Option<usize>)
        ensures
            ({
                let fs = entries_view(files@);
                let tree = build_tree(paths_of(fs));
                let items = visible_from(tree, 0, fs, 0);
                &&& final(self)@ == AppView {
                    files: fs,
                    tree,
                    items,
                    file_scroll: old(self).file_scroll.reset_spec(),
                    diff_scroll: old(self).diff_scroll.reset_spec(),
                    has_diff: false,
                    diff_line_count: 0,
                    last_selected_file: None,
                    ..old(self)@
                }
                &&& first == file_at(items, 0)
            }),
            final(self).commits == old(self).commits,
            final(self).files == files,
            final(self).well_formed(),
    {
        let tree = FileTree::build(files.as_slice());
        proof {
            lemma_fits_listable(tree@, 0, 0, files@.len());
        }
        let visible = tree.visible_items(files.as_slice());
        self.tree = tree;
        self.visible_items = visible;
        self.files = files;
        self.file_scroll.reset();
        self.diff_content = None;
        self.diff_line_count = 0;
        self.diff_scroll.reset();
        self.last_selected_file = None;
        // The file entry index of the first visible file
        if self.visible_items.len() > 0 {
            match &self.visible_items[0].kind {
                VisibleItemKind::File { entry_index, .. } => Some(*entry_index),
                VisibleItemKind::Directory { .. } => None,
            }
        } else {
            None
        }
    }

    /// Opens the changed files of the working tree: the file list shows
    /// them, the first row's file (if the first row is a file) counts as
    /// selected, and the file list becomes the active panel when there is
    /// any file. Returns the entry index of that first file, whose diff the
    /// front end then loads.
    pub fn open_files(&mut self, files: Vec<FileEntry>) -> (first: Option<usize>)
        ensures
            ({
                let fs = entries_view(files@);
                let tree = build_tree(paths_of(fs));
                let items = visible_from(tree, 0, fs, 0);
                &&& first == file_at(items, 0)
                &&& final(self)@ == AppView {
                    files: fs,
                    tree,
                    items,
                    file_scroll: old(self).file_scroll.reset_spec(),
                    diff_scroll: old(self).diff_scroll.reset_spec(),
                    has_diff: false,
                    diff_line_count: 0,
                    last_selected_file: first,
                    active_panel: if files.len() > 0 {
                        Panel::FileList
                    } else {
                        old(self).active_panel
                    },
                    ..old(self)@
                }
            }),
            final(self).commits == old(self).commits,
            final(self).files == files,
            final(self).well_formed(),
    {
        let first = self.set_commit_files(files);
        self.last_selected_file = first;
        if self.files.len() > 0 {
            self.active_panel = Panel::FileList;
        }
        first
    }

    /// The file on the row under the file cursor, if that row is a file.
    pub fn selected_file(&self) -> (f: Option<&FileEntry>)
        ensures
            f == (match file_at(self@.items, self.file_scroll.cursor as int) {
                Some(e) => if e < self.files.len() {
                    Some(&self.files[e as int])
                } else {
                    None
                },
                None => None,
            }),
    {
        let cursor = self.file_scroll.cursor;
        if cursor >= self.visible_items.len() {
            return None;
        }
        assert(self@.items[cursor as int] == self.visible_items@[cursor as int]@);
        match &self.visible_items[cursor].kind {
            VisibleItemKind::File { entry_index, .. } => {
                if *entry_index < self.files.len() {
                    Some(&self.files[*entry_index])
                } else {
                    None
                }
            },
            VisibleItemKind::Directory { .. } => None,
        }
    }

    /// Shows a loaded diff of `line_count` lines, scrolled to its top.
    pub fn set_diff_content(&mut self, content: Text<'a>, line_count: usize)
        ensures
            final(self)@ == (AppView {
                has_diff: true,
                diff_line_count: line_count,
                diff_scroll: old(self).diff_scroll.reset_spec(),
                ..old(self)@
            }),
            final(self).diff_content == Some(content),
            final(self).commits == old(self).commits,
            final(self).files == old(self).files,
    {
        self.diff_content = Some(content);
        self.diff_line_count = line_count;
        self.diff_scroll.reset();
    }

    /// Rows a panel shows in a terminal of the given height: the height less
    /// the borders and the status bar, and at least one.
    pub open spec fn rows_for_height(terminal_height: u16) -> usize {
        if terminal_height > 3 {
            (terminal_height - 3) as usize
        } else {
            1
        }
    }

    /// Fits the three panels to a terminal of the given height; nothing else
    /// changes.
    pub fn set_visible_rows(&mut self, terminal_height: u16)
        ensures
            ({
                let rows = Self::rows_for_height(terminal_height);
                final(self)@ == (AppView {
                    commit_scroll: ScrollState { visible_rows: rows, ..old(self).commit_scroll },
                    file_scroll: ScrollState { visible_rows: rows, ..old(self).file_scroll },
                    diff_scroll: ScrollState { visible_rows: rows, ..old(self).diff_scroll },
                    ..old(self)@
                })
            }),
            final(self).commits == old(self).commits,
            final(self).files == old(self).files,
            final(self).diff_content == old(self).diff_content,
            old(self).well_formed() ==> final(self).well_formed(),
    {
        let visible: usize = if terminal_height > 3 {
            (terminal_height - 3) as usize
        } else {
            1
        };
        self.commit_scroll.visible_rows = visible;
        self.file_scroll.visible_rows = visible;
        self.diff_scroll.visible_rows = visible;
    }

    /// Returns an action to perform after handling the key.
    pub fn handle_key(&mut self, key: KeyCode) -> (action: Action)
        requires
            old(self).active_panel == Panel::FileList ==> old(self).well_formed(),
            key_safe(old(self)@, key),
        ensures
            final(self)@ == step(old(self)@, key).0,
            action == step(old(self)@, key).1,
            final(self).commits == old(self).commits,
            final(self).files == old(self).files,
            final(self)@.has_diff ==> final(self).diff_content == old(self).diff_content,
            old(self).well_formed() ==> final(self).well_formed(),
    {
        match self.active_panel {
            Panel::CommitList => self.handle_commit_list_key(key),
            Panel::FileList => self.handle_file_list_key(key),
            Panel::Diff => self.handle_diff_key(key),
        }
    }

    fn handle_commit_list_key(&mut self, key: KeyCode) -> (action: Action)
        requires
            old(self).active_panel == Panel::CommitList,
            key_safe(old(self)@, key),
        ensures
            final(self)@ == commit_list_step(old(self)@, key).0,
            action == commit_list_step(old(self)@, key).1,
            final(self).commits == old(self).commits,
            final(self).files == old(self).files,
            final(self).diff_content == old(self).diff_content,
            old(self).well_formed() ==> final(self).well_formed(),
    {
        match key {
            KeyCode::Char('q') | KeyCode::Esc => Action::Quit,
            KeyCode::Char('j') | KeyCode::Down => {
                self.commit_scroll.down(self.commits.len());
                self.check_commit_selection_changed()
            },
            KeyCode::Char('k') | KeyCode::Up => {
                self.commit_scroll.up();
                self.check_commit_selection_changed()
            },
            KeyCode::Char('g') | KeyCode::Home => {
                self.commit_scroll.first();
                self.check_commit_selection_changed()
            },
            KeyCode::Char('G') | KeyCode::End => {
                self.commit_scroll.last(self.commits.len());
                self.check_commit_selection_changed()
            },
            KeyCode::Tab => {
                if self.files.len() > 0 {
                    self.active_panel = Panel::FileList;
                }
                Action::Render
            },
            _ => Action::Nothing,
        }
    }

    fn check_commit_selection_changed(&mut self) -> (action: Action)
        ensures
            (final(self)@, action) == after_commit_move(old(self)@, old(self).commit_scroll),
            final(self).commits == old(self).commits,
            final(self).files == old(self).files,
            final(self).diff_content == old(self).diff_content,
            final(self).tree == old(self).tree,
            final(self).visible_items == old(self).visible_items,
    {
        let current = Some(self.commit_scroll.cursor);
        if current != self.last_selected_commit {
            self.last_selected_commit = current;
            return Action::SelectCommit(self.commit_scroll.cursor);
        }
        Action::Render
    }

    fn handle_file_list_key(&mut self, key: KeyCode) -> (action: Action)
        requires
            old(self).well_formed(),
            old(self).active_panel == Panel::FileList,
            key_safe(old(self)@, key),
        ensures
            final(self)@ == file_list_step(old(self)@, key).0,
            action == file_list_step(old(self)@, key).1,
            final(self).commits == old(self).commits,
            final(self).files == old(self).files,
            final(self)@.has_diff ==> final(self).diff_content == old(self).diff_content,
            final(self).well_formed(),
    {
        match key {
            KeyCode::Char('q') => Action::Quit,
            KeyCode::Esc => {
                self.active_panel = Panel::CommitList;
                Action::Render
            },
            KeyCode::Char('j') | KeyCode::Down => {
                self.file_scroll.down(self.visible_items.len());
                self.check_selection_changed()
            },
            KeyCode::Char('k') | KeyCode::Up => {
                self.file_scroll.up();
                self.check_selection_changed()
            },
            KeyCode::Char('g') | KeyCode::Home => {
                self.file_scroll.first();
                self.check_selection_changed()
            },
            KeyCode::Char('G') | KeyCode::End => {
                self.file_scroll.last(self.visible_items.len());
                self.check_selection_changed()
            },
            KeyCode::Enter => {
                self.toggle_under_cursor();
                Action::Render
            },
            KeyCode::Tab => {
                if self.diff_content.is_some() {
                    self.active_panel = Panel::Diff;
                }
                Action::Render
            },
            _ => Action::Nothing,
        }
    }

    /// Collapses or expands the directory under the file cursor, if any.
    fn toggle_under_cursor(&mut self)
        requires
            old(self).well_formed(),
        ensures
            final(self)@ == enter_step(old(self)@),
            final(self).commits == old(self).commits,
            final(self).files == old(self).files,
            final(self).diff_content == old(self).diff_content,
            final(self).well_formed(),
    {
        let cursor = self.file_scroll.cursor;
        let is_dir = if cursor < self.visible_items.len() {
            assert(self@.items[cursor as int] == self.visible_items@[cursor as int]@);
            match self.visible_items[cursor].kind {
                VisibleItemKind::Directory { .. } => true,
                _ => false,
            }
        } else {
            false
        };
        if is_dir {
            let ghost n = self.files@.len();
            proof {
                lemma_walk_basics(self.tree@, 0, cursor as nat, 0);
                lemma_walk_fits(self.tree@, 0, cursor as nat, 0, 0, n);
                lemma_fits_listable(walk_from(self.tree@, 0, cursor as nat, 0).nodes, 0, 0, n);
            }
            self.tree.toggle_at_visible(cursor);
            self.visible_items = self.tree.visible_items(self.files.as_slice());
            self.file_scroll.clamp(self.visible_items.len());
        }
    }

    fn handle_diff_key(&mut self, key: KeyCode) -> (action: Action)
        requires
            old(self).active_panel == Panel::Diff,
            key_safe(old(self)@, key),
        ensures
            final(self)@ == diff_step(old(self)@, key).0,
            action == diff_step(old(self)@, key).1,
            final(self).commits == old(self).commits,
            final(self).files == old(self).files,
            final(self).diff_content == old(self).diff_content,
            final(self).tree == old(self).tree,
            final(self).visible_items == old(self).visible_items,
    {
        match key {
            KeyCode::Char('q') | KeyCode::Esc | KeyCode::Tab => {
                self.active_panel = Panel::FileList;
                Action::Render
            },
            KeyCode::Char('j') | KeyCode::Down => {
                self.diff_scroll.down(self.diff_line_count);
                Action::Render
            },
            KeyCode::Char('k') | KeyCode::Up => {
                self.diff_scroll.up();
                Action::Render
            },
            KeyCode::Char('g') | KeyCode::Home => {
                self.diff_scroll.first();
                Action::Render
            },
            KeyCode::Char('G') | KeyCode::End => {
                self.diff_scroll.last(self.diff_line_count);
                Action::Render
            },
            KeyCode::PageDown => {
                self.diff_scroll.page_down(self.diff_line_count);
                Action::Render
            },
            KeyCode::PageUp => {
                self.diff_scroll.page_up();
                Action::Render
            },
            _ => Action::Nothing,
        }
    }

    fn check_selection_changed(&mut self) -> (action: Action)
        ensures
            (final(self)@, action) == after_file_move(old(self)@, old(self).file_scroll),
            final(self).commits == old(self).commits,
            final(self).files == old(self).files,
            final(self)@.has_diff ==> final(self).diff_content == old(self).diff_content,
            final(self).tree == old(self).tree,
            final(self).visible_items == old(self).visible_items,
    {
        let cursor = self.file_scroll.cursor;
        let current_file = if cursor < self.visible_items.len() {
            assert(self@.items[cursor as int] == self.visible_items@[cursor as int]@);
            match &self.visible_items[cursor].kind {
                VisibleItemKind::File { entry_index, .. } => Some(*entry_index),
                VisibleItemKind::Directory { .. } => None,
            }
        } else {
            None
        };
        if current_file != self.last_selected_file {
            self.last_selected_file = current_file;
            if let Some(entry_index) = current_file {
                return Action::LoadDiff(entry_index);
            } else {
                // Moved to a directory — clear diff
                self.diff_content = None;
                self.diff_line_count = 0;
            }
        }
        Action::Render
    }
}

/// Every key keeps the file list showing exactly the rows of a tree that
/// fits the files.
pub proof fn lemma_step_keeps_rows_consistent(v: AppView, key: KeyCode)
    requires
        rows_consistent(v),
    ensures
        rows_consistent(step(v, key).0),
{
    let c = v.file_scroll.cursor;
    if v.active_panel == Panel::FileList && key == KeyCode::Enter && c < v.items.len()
        && v.items[c as int].kind is Directory {
        lemma_walk_basics(v.tree, 0, c as nat, 0);
        lemma_walk_fits(v.tree, 0, c as nat, 0, 0, v.files.len());
    }
}

/// A diff is asked for only for the file row under the cursor, which then
/// counts as selected.
pub proof fn lemma_load_diff_is_file_under_cursor(v: AppView, key: KeyCode, e: usize)
    requires
        step(v, key).1 == Action::LoadDiff(e),
    ensures
        file_at(step(v, key).0.items, step(v, key).0.file_scroll.cursor as int) == Some(e),
        step(v, key).0.last_selected_file == Some(e),
        v.active_panel == Panel::FileList,
{
}

/// A commit is selected only at the commit cursor, which then counts as
/// selected.
pub proof fn lemma_select_commit_is_cursor(v: AppView, key: KeyCode, i: usize)
    requires
        step(v, key).1 == Action::SelectCommit(i),
    ensures
        step(v, key).0.commit_scroll.cursor == i,
        step(v, key).0.last_selected_commit == Some(i),
        v.active_panel == Panel::CommitList,
{
}

/// Cursors that point at a commit and at a row keep doing so, whatever the
/// key.
pub proof fn lemma_step_keeps_cursors_in_bounds(v: AppView, key: KeyCode)
    requires
        v.commit_scroll.cursor_in_bounds(v.commit_count),
        v.file_scroll.cursor_in_bounds(v.items.len()),
        v.commit_count <= usize::MAX,
        v.items.len() <= usize::MAX,
        step(v, key).0.items.len() <= usize::MAX,
    ensures
        step(v, key).0.commit_scroll.cursor_in_bounds(step(v, key).0.commit_count),
        step(v, key).0.file_scroll.cursor_in_bounds(step(v, key).0.items.len()),
{
    lemma_moves_keep_cursor_in_bounds(v.commit_scroll, v.commit_count as usize);
    lemma_moves_keep_cursor_in_bounds(v.file_scroll, v.items.len() as usize);
    let c = v.file_scroll.cursor;
    if v.active_panel == Panel::FileList && key == KeyCode::Enter && c < v.items.len()
        && v.items[c as int].kind is Directory {
        let v2 = enter_step(v);
        lemma_moves_keep_cursor_in_bounds(v.file_scroll, v2.items.len() as usize);
    }
}

/// The diff panel is entered only with a diff loaded, and the file list
/// from the commit list only when the commit has changed files.
pub proof fn lemma_panel_entry_guards(v: AppView, key: KeyCode)
    ensures
        step(v, key).0.active_panel == Panel::Diff && v.active_panel != Panel::Diff ==> v.has_diff
            && step(v, key).0.has_diff,
        step(v, key).0.active_panel == Panel::FileList && v.active_panel == Panel::CommitList
            ==> v.files.len() > 0,
{
}

/// Quitting leaves the state as it was, and comes only from `q` or Esc in
/// the commit list or `q` in the file list; a key a panel does not use
/// changes nothing.
pub proof fn lemma_quit_and_unused_keys(v: AppView, key: KeyCode)
    ensures
        step(v, key).1 == Action::Quit ==> step(v, key).0 == v && ((v.active_panel
            == Panel::CommitList && (key == KeyCode::Char('q') || key == KeyCode::Esc)) || (
        v.active_panel == Panel::FileList && key == KeyCode::Char('q'))),
        step(v, key).1 == Action::Nothing ==> step(v, key).0 == v,
{
}

/// No key changes the commits' count or the changed files.
pub proof fn lemma_step_keeps_commits_and_files(v: AppView, key: KeyCode)
    ensures
        step(v, key).0.commit_count == v.commit_count,
        step(v, key).0.files == v.files,
{
}

/// Enter on a directory row of the file list collapses or expands that
/// directory: its row stays where it was with its `expanded` flag flipped,
/// the rows above it do not change, and the cursor stays on it.
pub proof fn lemma_enter_toggles_directory_row(v: AppView)
    requires
        rows_consistent(v),
        v.active_panel == Panel::FileList,
        v.file_scroll.cursor < v.items.len(),
        v.items[v.file_scroll.cursor as int].kind is Directory,
        step(v, KeyCode::Enter).0.items.len() <= usize::MAX,
    ensures
        ({
            let c = v.file_scroll.cursor as int;
            let after = step(v, KeyCode::Enter).0;
            &&& step(v, KeyCode::Enter).1 == Action::Render
            &&& after.items.len() > c
            &&& after.items.take(c) == v.items.take(c)
            &&& after.items[c] == flipped(v.items[c])
            &&& after.file_scroll.cursor == c
        }),
{
    lemma_toggle_directory_row(v.tree, v.files, v.file_scroll.cursor as nat);
}


/// In the diff panel each scrolling key moves the diff cursor over the
/// diff's `n` lines as its name says, changes nothing but the diff's scroll
/// position, and asks for a redraw: `j`/Down one line down and `k`/Up one
/// line up (where there is a line), `g`/Home to the top, `G`/End to the
/// last line with the window's bottom on it, PageDown a window's height
/// down (at most to the last line) and PageUp a window's height up (at
/// most to the top). A cursor shown in the window stays shown.
pub proof fn lemma_diff_keys_scroll(v: AppView, key: KeyCode)
    requires
        v.active_panel == Panel::Diff,
    ensures
        ({
            let n = v.diff_line_count as int;
            let s = v.diff_scroll;
            let rows = s.visible_rows as int;
            let (after, action) = step(v, key);
            let t = after.diff_scroll;
            &&& (key == KeyCode::Char('j') || key == KeyCode::Down || key == KeyCode::Char('k')
                || key == KeyCode::Up || key == KeyCode::Char('g') || key == KeyCode::Home
                || key == KeyCode::Char('G') || key == KeyCode::End || key == KeyCode::PageDown
                || key == KeyCode::PageUp) ==> {
                &&& action == Action::Render
                &&& after == AppView { diff_scroll: t, ..v }
                &&& t.visible_rows == s.visible_rows
                &&& s.cursor_visible() && s.cursor_in_bounds(n as nat) ==> t.cursor_visible()
            }
            &&& (key == KeyCode::Char('j') || key == KeyCode::Down) ==> t.cursor == (if s.cursor
                + 1 < n {
                s.cursor + 1
            } else {
                s.cursor as int
            })
            &&& (key == KeyCode::Char('k') || key == KeyCode::Up) ==> t.cursor == (if s.cursor > 0 {
                s.cursor - 1
            } else {
                0
            })
            &&& (key == KeyCode::Char('g') || key == KeyCode::Home) ==> t.cursor == 0 && t.offset
                == 0
            &&& (key == KeyCode::Char('G') || key == KeyCode::End) ==> {
                &&& n == 0 ==> t == s
                &&& n > 0 ==> {
                    &&& t.cursor == n - 1
                    &&& t.cursor_visible()
                    &&& rows > 0 && n >= rows ==> t.offset + rows == n
                    &&& n <= rows ==> t.offset == 0
                }
            }
            &&& key == KeyCode::PageDown ==> {
                &&& n == 0 ==> t == s
                &&& n > 0 ==> t.cursor == (if s.cursor + rows < n - 1 {
                    s.cursor + rows
                } else {
                    n - 1
                })
            }
            &&& key == KeyCode::PageUp ==> t.cursor == (if s.cursor >= rows {
                s.cursor - rows
            } else {
                0
            })
        }),
{
}


/// Where a navigation key puts a cursor standing at `cursor` in a list of
/// `n` rows shown `rows` at a time: `j`/Down one row down and `k`/Up one
/// row up where there is a row, `g`/Home the first row, `G`/End the last
/// row, PageDown `rows` rows down but not past the last row, PageUp `rows`
/// rows up but not past the first.
pub open spec fn cursor_after(key: KeyCode, cursor: int, rows: int, n: int) -> int {
    if key == KeyCode::Char('j') || key == KeyCode::Down {
        if cursor + 1 < n {
            cursor + 1
        } else {
            cursor
        }
    } else if key == KeyCode::Char('k') || key == KeyCode::Up {
        if cursor > 0 {
            cursor - 1
        } else {
            cursor
        }
    } else if key == KeyCode::Char('g') || key == KeyCode::Home {
        0
    } else if key == KeyCode::Char('G') || key == KeyCode::End {
        if n > 0 {
            n - 1
        } else {
            cursor
        }
    } else if key == KeyCode::PageDown {
        if n <= 0 {
            cursor
        } else if cursor + rows < n - 1 {
            cursor + rows
        } else {
            n - 1
        }
    } else if key == KeyCode::PageUp {
        if cursor >= rows {
            cursor - rows
        } else {
            0
        }
    } else {
        cursor
    }
}

/// The keys that move a list's cursor one row or to an end.
pub open spec fn is_move_key(key: KeyCode) -> bool {
    ||| key == KeyCode::Char('j')
    ||| key == KeyCode::Down
    ||| key == KeyCode::Char('k')
    ||| key == KeyCode::Up
    ||| key == KeyCode::Char('g')
    ||| key == KeyCode::Home
    ||| key == KeyCode::Char('G')
    ||| key == KeyCode::End
}

/// In the commit list the moving keys put the commit cursor where their
/// names say, a cursor shown in the window stays shown, and the commit
/// under the cursor becomes the selected one: choosing a commit not
/// selected before asks for its files, otherwise the panels are redrawn.
/// Nothing else changes.
pub proof fn lemma_commit_keys_move_cursor(v: AppView, key: KeyCode)
    requires
        v.active_panel == Panel::CommitList,
        is_move_key(key),
        v.commit_count <= usize::MAX,
    ensures
        ({
            let s = v.commit_scroll;
            let (after, action) = step(v, key);
            let t = after.commit_scroll;
            &&& t.cursor == cursor_after(key, s.cursor as int, s.visible_rows as int, v.commit_count as int)
            &&& t.visible_rows == s.visible_rows
            &&& s.cursor_visible() && s.cursor_in_bounds(v.commit_count) ==> t.cursor_visible()
            &&& after == AppView { commit_scroll: t, last_selected_commit: Some(t.cursor), ..v }
            &&& action == (if v.last_selected_commit == Some(t.cursor) {
                Action::Render
            } else {
                Action::SelectCommit(t.cursor)
            })
        }),
{
}

/// In the file list the moving keys put the file cursor where their names
/// say, a cursor shown in the window stays shown, and the row under the
/// cursor becomes the selected one: a file row not selected before asks
/// for its diff; a directory row reached from a file drops the diff shown.
/// Nothing else changes.
pub proof fn lemma_file_keys_move_cursor(v: AppView, key: KeyCode)
    requires
        v.active_panel == Panel::FileList,
        is_move_key(key),
        v.items.len() <= usize::MAX,
    ensures
        ({
            let s = v.file_scroll;
            let (after, action) = step(v, key);
            let t = after.file_scroll;
            let row = file_at(v.items, t.cursor as int);
            &&& t.cursor == cursor_after(key, s.cursor as int, s.visible_rows as int, v.items.len() as int)
            &&& t.visible_rows == s.visible_rows
            &&& s.cursor_visible() && s.cursor_in_bounds(v.items.len()) ==> t.cursor_visible()
            &&& after.last_selected_file == row
            &&& row == v.last_selected_file ==> after == AppView { file_scroll: t, ..v }
                && action == Action::Render
            &&& row != v.last_selected_file && row is Some ==> after == AppView {
                file_scroll: t,
                last_selected_file: row,
                ..v
            } && action == Action::LoadDiff(row->0)
            &&& row != v.last_selected_file && row is None ==> after == AppView {
                file_scroll: t,
                last_selected_file: None,
                has_diff: false,
                diff_line_count: 0,
                ..v
            } && action == Action::Render
        }),
{
}

} // verus!
