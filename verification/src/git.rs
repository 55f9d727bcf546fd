//! Commits, changed files, and the reading of `git diff --name-status` output.
use vstd::prelude::*;

use crate::text::{
    chars_of, char_lines, lemma_lines_of_concat, lemma_lines_of_line_feed, lemma_trim_without_cr,
    is_white_space, line_scan, lines_of, push_char, split_lines, string_of, trim, trim_end,
    trim_range, trim_start, without_cr,
};

verus! {

/// How a file changed in a commit.
#[derive(Debug, Clone, Copy, PartialEq, Eq, Structural)]
pub enum FileStatus {
    Added,
    Modified,
    Deleted,
}

/// A changed file: its path and how it changed.
#[derive(Debug, Clone, PartialEq)]
pub struct FileEntry {
    pub path: String,
    pub status: FileStatus,
}

/// A commit in the list of commits.
#[derive(Debug, Clone, PartialEq)]
pub struct Commit {
    pub hash: String,
    pub subject: String,
    pub parent_hash: Option<String>,
}

/// The letter by which `git diff --name-status` names a status.
pub open spec fn status_letter(status: FileStatus) -> char {
    match status {
        FileStatus::Added => 'A',
        FileStatus::Modified => 'M',
        FileStatus::Deleted => 'D',
    }
}

impl FileStatus {
    /// The status as the one letter that names it: `A`, `M` or `D`.
    pub fn to_string(&self) -> (s: String)
        ensures
            s@ == seq![status_letter(*self)],
    {
        let mut s = String::new();
        let c = match self {
            FileStatus::Added => 'A',
            FileStatus::Modified => 'M',
            FileStatus::Deleted => 'D',
        };
        push_char(&mut s, c);
        assert(s@ =~= seq![status_letter(*self)]);
        s
    }
}

/// A changed file as the contracts see it.
pub struct EntryModel {
    pub path: Seq<char>,
    pub status: FileStatus,
}

impl View for FileEntry {
    type V = EntryModel;

    open spec fn view(&self) -> EntryModel {
        EntryModel { path: self.path@, status: self.status }
    }
}

/// The models of a sequence of file entries.
pub open spec fn entries_view(v: Seq<FileEntry>) -> Seq<EntryModel> {
    v.map_values(|e: FileEntry| e@)
}

/// The status that a status field names, if it is one of `A`, `M`, `D`.
pub open spec fn status_named(s: Seq<char>) -> Option<FileStatus> {
    if s.len() != 1 {
        None
    } else if s[0] == 'A' {
        Some(FileStatus::Added)
    } else if s[0] == 'M' {
        Some(FileStatus::Modified)
    } else if s[0] == 'D' {
        Some(FileStatus::Deleted)
    } else {
        None
    }
}

/// The first position at or after `i` that holds a tab, or the length.
pub open spec fn find_tab(s: Seq<char>, i: int) -> int
    decreases s.len() - i,
{
    if 0 <= i < s.len() && s[i] != '\t' {
        find_tab(s, i + 1)
    } else {
        i
    }
}

/// The entry one line of `--name-status` output describes: the trimmed
/// line is split at its first tab into a status and a path, each trimmed
/// again. Blank lines, lines without a tab and statuses other than `A`,
/// `M`, `D` (renames, copies, ...) describe none.
pub open spec fn entry_of_line(line: Seq<char>) -> Option<EntryModel> {
    let t = trim(line);
    let k = find_tab(t, 0);
    if t.len() == 0 || k >= t.len() {
        None
    } else {
        match status_named(trim(t.take(k))) {
            Some(status) => Some(EntryModel { path: trim(t.skip(k + 1)), status }),
            None => None,
        }
    }
}

/// The entries that the given lines describe, in order.
pub open spec fn entries_of(lines: Seq<Seq<char>>) -> Seq<EntryModel>
    decreases lines.len(),
{
    if lines.len() == 0 {
        Seq::empty()
    } else {
        let prev = entries_of(lines.drop_last());
        match entry_of_line(lines.last()) {
            Some(e) => prev.push(e),
            None => prev,
        }
    }
}

proof fn lemma_find_tab_shift(line: Seq<char>, a: int, b: int, j: int)
    requires
        0 <= a <= j <= b <= line.len(),
    ensures
        find_tab(line.subrange(a, b), j - a) - (j - a) == (if j < b && line[j] != '\t' {
            find_tab(line.subrange(a, b), j - a + 1) - (j - a)
        } else {
            0
        }),
{
}

/// The entry that one line describes, if any.
fn entry_from_line(line: &Vec<char>) -> (r: Option<FileEntry>)
    ensures
        match r {
            Some(e) => entry_of_line(line@) == Some(e@),
            None => entry_of_line(line@) is None,
        },
{
    let (a, b) = trim_range(line, 0, line.len());
    assert(line@.subrange(0, line.len() as int) == line@);
    let ghost t = line@.subrange(a as int, b as int);
    if a == b {
        return None;
    }
    let mut k = a;
    while k < b && line[k] != '\t'
        invariant
            a <= k <= b <= line.len(),
            t == line@.subrange(a as int, b as int),
            find_tab(t, 0) == find_tab(t, k - a),
        decreases b - k,
    {
        proof {
            lemma_find_tab_shift(line@, a as int, b as int, k as int);
        }
        k += 1;
    }
    assert(find_tab(t, k - a) == k - a) by {
        if k < b {
            assert(t[k - a] == line@[k as int]);
        }
    }
    if k == b {
        return None;
    }
    let (sa, sb) = trim_range(line, a, k);
    assert(t.take(k - a) == line@.subrange(a as int, k as int));
    let status = if sb - sa == 1 && line[sa] == 'A' {
        FileStatus::Added
    } else if sb - sa == 1 && line[sa] == 'M' {
        FileStatus::Modified
    } else if sb - sa == 1 && line[sa] == 'D' {
        FileStatus::Deleted
    } else {
        proof {
            let st = line@.subrange(sa as int, sb as int);
            if st.len() == 1 {
                assert(st[0] == line@[sa as int]);
            }
        }
        return None;
    };
    proof {
        let st = line@.subrange(sa as int, sb as int);
        assert(st =~= seq![status_letter(status)]);
    }
    let (pa, pb) = trim_range(line, k + 1, b);
    assert(t.skip(k - a + 1) == line@.subrange(k + 1, b as int));
    let path = string_of(line, pa, pb);
    proof {
        assert(t == trim(line@));
        assert(find_tab(t, 0) == k - a);
        assert(trim(t.take(k - a)) == seq![status_letter(status)]);
        assert(status_named(seq![status_letter(status)]) == Some(status));
        assert(trim(t.skip(k - a + 1)) == path@);
    }
    Some(FileEntry { path, status })
}

/// Parse `git diff --name-status` output into FileEntry values.
pub fn parse_name_status(output: &str) -> (files: Vec<FileEntry>)
    ensures
        entries_view(files@) == entries_of(lines_of(output@)),
{
    let chars = chars_of(output);
    let lines = split_lines(&chars);
    let ghost all = char_lines(lines@);
    let mut files: Vec<FileEntry> = Vec::new();
    let mut k: usize = 0;
    assert(all.take(0) =~= Seq::<Seq<char>>::empty());
    assert(entries_view(files@) =~= Seq::<EntryModel>::empty());
    while k < lines.len()
        invariant
            k <= lines.len(),
            all == char_lines(lines@),
            all == lines_of(output@),
            entries_view(files@) == entries_of(all.take(k as int)),
        decreases lines.len() - k,
    {
        proof {
            assert(all.take(k + 1).drop_last() == all.take(k as int));
            assert(all.take(k + 1).last() == lines@[k as int]@);
        }
        let ghost before = entries_view(files@);
        match entry_from_line(&lines[k]) {
            Some(e) => {
                files.push(e);
                assert(entries_view(files@) =~= before.push(e@));
            },
            None => {},
        }
        k += 1;
    }
    assert(all.take(lines.len() as int) == all);
    files
}

proof fn lemma_entries_concat(x: Seq<Seq<char>>, y: Seq<Seq<char>>)
    ensures
        entries_of(x + y) == entries_of(x) + entries_of(y),
    decreases y.len(),
{
    if y.len() == 0 {
        assert(x + y =~= x);
        assert(entries_of(x) + entries_of(y) =~= entries_of(x));
    } else {
        lemma_entries_concat(x, y.drop_last());
        assert((x + y).drop_last() =~= x + y.drop_last());
        assert((x + y).last() == y.last());
        match entry_of_line(y.last()) {
            Some(e) => {
                assert((entries_of(x) + entries_of(y.drop_last())).push(e) =~= entries_of(x)
                    + entries_of(y.drop_last()).push(e));
            },
            None => {},
        }
    }
}

/// Two outputs joined by a line feed describe the entries of the first and
/// then those of the second: lines are read one by one and in order, blank
/// lines describe nothing, and the carriage return of a `\r\n` ending is
/// trimmed like other white space.
pub proof fn lemma_name_status_join(a: Seq<char>, b: Seq<char>)
    ensures
        entries_of(lines_of(a + seq!['\n'] + b)) == entries_of(lines_of(a)) + entries_of(
            lines_of(b),
        ),
{
    let p = a.push('\n');
    assert(a + seq!['\n'] + b =~= p + b);
    lemma_lines_of_concat(p, b);
    lemma_entries_concat(lines_of(p), lines_of(b));
    lemma_lines_of_line_feed(a);
    let (d, c) = line_scan(a);
    lemma_trim_without_cr(c);
    assert(d.push(without_cr(c)).drop_last() =~= d);
    if c.len() > 0 {
        assert(d.push(c).drop_last() =~= d);
        assert(entry_of_line(without_cr(c)) == entry_of_line(c));
    } else {
        assert(without_cr(c) =~= Seq::<char>::empty());
        assert(trim(Seq::<char>::empty()) =~= Seq::<char>::empty());
    }
}

/// A line written as `--name-status` writes an entry (the status letter, a
/// tab, and a path with no white space at its ends) reads back as that
/// entry.
pub proof fn lemma_name_status_line_reads_back(status: FileStatus, path: Seq<char>)
    requires
        path.len() > 0,
        trim(path) == path,
    ensures
        entry_of_line(seq![status_letter(status), '\t'] + path) == Some(
            EntryModel { path, status },
        ),
{
    let line = seq![status_letter(status), '\t'] + path;
    let c = status_letter(status);
    assert(!is_white_space(c));
    // A path equal to its trim starts and ends with a character that is
    // not white space.
    assert(!is_white_space(path[0]) && !is_white_space(path.last())) by {
        if is_white_space(path[0]) {
            assert(trim_start(path) == trim_start(path.drop_first()));
            lemma_trim_shorter(path.drop_first());
            lemma_trim_shorter(trim_start(path.drop_first()));
            assert(trim(path).len() < path.len());
        }
        if !is_white_space(path[0]) && is_white_space(path.last()) {
            assert(trim_start(path) == path);
            assert(trim_end(path) == trim_end(path.drop_last()));
            lemma_trim_shorter(path.drop_last());
        }
    }
    assert(line[0] == c);
    assert(line.last() == path.last());
    assert(trim_start(line) == line);
    assert(trim_end(line) == line);
    assert(trim(line) == line);
    assert(line[1] == '\t');
    assert(find_tab(line, 1) == 1);
    assert(find_tab(line, 0) == 1);
    assert(line.take(1) =~= seq![c]);
    assert(trim_start(seq![c]) == seq![c]);
    assert(trim_end(seq![c]) == seq![c]);
    assert(line.skip(2) =~= path);
}

proof fn lemma_trim_shorter(s: Seq<char>)
    ensures
        trim_start(s).len() <= s.len(),
        trim_end(s).len() <= s.len(),
    decreases s.len(),
{
    if s.len() > 0 {
        lemma_trim_shorter(s.drop_first());
        lemma_trim_shorter(s.drop_last());
    }
}

/// Returns diff args for the working tree (unstaged changes).
pub fn worktree_diff_args() -> (args: Vec<String>)
    ensures
        args.len() == 2,
        args[0]@ == "diff"@,
        args[1]@ == "--no-ext-diff"@,
{
    let mut args: Vec<String> = Vec::new();
    args.push(String::from_str("diff"));
    args.push(String::from_str("--no-ext-diff"));
    args
}

} // verus!
