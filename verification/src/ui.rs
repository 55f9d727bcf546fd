//! What the panels draw, computed as plain text and numbers: line number
//! gutters, truncated cells, the window of diff rows, and the labels of the
//! file list and status bar. Drawing them is left to the terminal front end.
use vstd::prelude::*;

use crate::app::Panel;
use crate::diff::SideContent;
use crate::git::{status_letter, FileStatus};
use crate::text::{chars_of, push_char};

verus! {

// ---------------------------------------------------------------------------
// Decimal line numbers
// ---------------------------------------------------------------------------

/// The number of decimal digits of `n` (1 for 0).
pub open spec fn decimal_digits(n: nat) -> nat
    decreases n,
{
    if n < 10 {
        1
    } else {
        1 + decimal_digits(n / 10)
    }
}

/// The character of a decimal digit.
pub open spec fn digit_char(d: nat) -> char {
    (48 + d) as char
}

/// `n` written in decimal.
pub open spec fn decimal(n: nat) -> Seq<char>
    decreases n,
{
    if n < 10 {
        seq![digit_char(n)]
    } else {
        decimal(n / 10).push(digit_char(n % 10))
    }
}

/// A decimal number has as many characters as digits.
pub proof fn lemma_decimal_len(n: nat)
    ensures
        decimal(n).len() == decimal_digits(n),
    decreases n,
{
    if n >= 10 {
        lemma_decimal_len(n / 10);
    }
}

proof fn lemma_digits_small(n: nat)
    ensures
        decimal_digits(n) >= 1,
        n >= 1 ==> decimal_digits(n) <= n,
    decreases n,
{
    if n >= 10 {
        lemma_digits_small(n / 10);
    }
}

/// Compute the width needed for line number gutters based on max line number.
pub fn lineno_width(max_lineno: usize) -> (w: usize)
    ensures
        w == decimal_digits(max_lineno as nat),
{
    let mut n = max_lineno;
    let mut w: usize = 1;
    while n >= 10
        invariant
            w + decimal_digits(n as nat) == 1 + decimal_digits(max_lineno as nat),
            n <= max_lineno,
        decreases n,
    {
        proof {
            lemma_digits_small(n as nat);
            lemma_digits_small(n as nat / 10);
            lemma_digits_small(max_lineno as nat);
        }
        n = n / 10;
        w = w + 1;
    }
    w
}

/// Appends `n` written in decimal.
fn push_decimal(s: &mut String, n: usize)
    ensures
        final(s)@ == old(s)@ + decimal(n as nat),
    decreases n,
{
    if n >= 10 {
        push_decimal(s, n / 10);
    }
    let d = (n % 10) as u8;
    let c = (48u8 + d) as char;
    assert(c == digit_char((n % 10) as nat));
    push_char(s, c);
    assert(s@ =~= old(s)@ + decimal(n as nat));
}

/// `n` copies of `c`.
pub open spec fn repeated(c: char, n: nat) -> Seq<char> {
    Seq::new(n, |_i: int| c)
}

/// Appends `n` copies of `c`.
fn push_repeated(s: &mut String, c: char, n: usize)
    ensures
        final(s)@ == old(s)@ + repeated(c, n as nat),
{
    let mut i: usize = 0;
    while i < n
        invariant
            i <= n,
            s@ == old(s)@ + repeated(c, i as nat),
        decreases n - i,
    {
        push_char(s, c);
        assert(repeated(c, (i + 1) as nat) =~= repeated(c, i as nat).push(c));
        assert(s@ =~= old(s)@ + repeated(c, (i + 1) as nat));
        i += 1;
    }
}

/// `s` right-aligned in a field of `width` characters, as `{:>width$}`
/// formats it: spaces before it when it is shorter.
pub open spec fn pad_left(s: Seq<char>, width: nat) -> Seq<char> {
    if s.len() < width {
        repeated(' ', (width - s.len()) as nat) + s
    } else {
        s
    }
}

/// A line number right-aligned in a gutter of `width` characters.
pub fn lineno_text(lineno: usize, width: usize) -> (s: String)
    ensures
        s@ == pad_left(decimal(lineno as nat), width as nat),
{
    proof {
        lemma_decimal_len(lineno as nat);
    }
    let digits = lineno_width(lineno);
    let mut s = String::new();
    if digits < width {
        push_repeated(&mut s, ' ', width - digits);
    }
    push_decimal(&mut s, lineno);
    assert(s@ =~= pad_left(decimal(lineno as nat), width as nat));
    s
}

// ---------------------------------------------------------------------------
// Truncating to a width
// ---------------------------------------------------------------------------

/// The number of terminal columns that `unicode-width` gives a character
/// (`UnicodeWidthChar::width`); `None` for control characters.
pub uninterp spec fn unicode_char_width(c: char) -> Option<usize>;

/// `UnicodeWidthChar::width` of the unicode-width crate. Its result is named
/// by `unicode_char_width`; beyond that the contract states what the crate's
/// source shows plainly: printable ASCII takes one column, the C0 and C1
/// control characters have no width, and every character from U+00A0 on
/// takes at most three columns. The widths it looks up in its tables for
/// other characters are not stated.
#[verifier::external_body]
fn char_width(c: char) -> (w: Option<usize>)
    ensures
        w == unicode_char_width(c),
        0x20 <= (c as u32) < 0x7F ==> w == Some(1usize),
        (c as u32) < 0x20 || 0x7F <= (c as u32) < 0xA0 ==> w == Option::<usize>::None,
        (c as u32) >= 0xA0 ==> w.is_some() && w.unwrap() <= 3,
{
    unicode_width::UnicodeWidthChar::width(c)
}

/// The columns a character takes in a diff cell: 4 for a tab, its Unicode
/// width otherwise, and 0 for control characters.
pub open spec fn cell_width(c: char) -> nat {
    if c == '\t' {
        4
    } else {
        match unicode_char_width(c) {
            Some(w) => w as nat,
            None => 0,
        }
    }
}

/// What a character becomes in a cell: four spaces for a tab, itself
/// otherwise.
pub open spec fn shown(c: char) -> Seq<char> {
    if c == '\t' {
        seq![' ', ' ', ' ', ' ']
    } else {
        seq![c]
    }
}

/// Truncating a text to `max` columns, after some of its characters: the
/// cell's text and width so far, whether a character did not fit (after
/// which nothing more is added), and whether adding up the width would
/// have gone past `usize::MAX`.
pub struct Cut {
    pub text: Seq<char>,
    pub width: nat,
    pub stopped: bool,
    pub overflow: bool,
}

/// Truncation of `s` to `max` columns: characters are added while their
/// widths still fit, and the first that does not fit ends the text.
pub open spec fn cut_scan(s: Seq<char>, max: nat) -> Cut
    decreases s.len(),
{
    if s.len() == 0 {
        Cut { text: Seq::empty(), width: 0, stopped: false, overflow: false }
    } else {
        let p = cut_scan(s.drop_last(), max);
        let w = cell_width(s.last());
        if p.stopped {
            p
        } else if p.width + w > usize::MAX {
            Cut { stopped: true, overflow: true, ..p }
        } else if p.width + w > max {
            Cut { stopped: true, ..p }
        } else {
            Cut { text: p.text + shown(s.last()), width: p.width + w, ..p }
        }
    }
}

proof fn lemma_cut_stays(s: Seq<char>, max: nat, k: int)
    requires
        0 <= k <= s.len(),
        cut_scan(s.take(k), max).stopped,
    ensures
        cut_scan(s, max) == cut_scan(s.take(k), max),
    decreases s.len() - k,
{
    if k < s.len() {
        assert(s.take(k + 1).drop_last() == s.take(k));
        lemma_cut_stays(s, max, k + 1);
    } else {
        assert(s.take(k) == s);
    }
}

proof fn lemma_cut_width(s: Seq<char>, max: nat)
    ensures
        cut_scan(s, max).width <= max,
    decreases s.len(),
{
    if s.len() > 0 {
        lemma_cut_width(s.drop_last(), max);
    }
}

/// How `s` looks in a diff cell: each character shown, tabs as four spaces.
pub open spec fn shown_text(s: Seq<char>) -> Seq<char>
    decreases s.len(),
{
    if s.len() == 0 {
        Seq::empty()
    } else {
        shown_text(s.drop_last()) + shown(s.last())
    }
}

/// The columns `s` takes in a diff cell: the sum of its characters' widths.
pub open spec fn text_width(s: Seq<char>) -> nat
    decreases s.len(),
{
    if s.len() == 0 {
        0
    } else {
        text_width(s.drop_last()) + cell_width(s.last())
    }
}

/// Truncation keeps the longest start of the text that fits: the cell shows
/// the first `k` characters of `s` (tabs expanded) and is as wide as they
/// are, where either all of `s` fits (`k` is its length) or the first
/// `k + 1` characters would take more than `max` columns.
pub proof fn lemma_cut_keeps_longest_fitting_start(s: Seq<char>, max: nat)
    requires
        max <= usize::MAX,
    ensures
        exists|k: int|
            0 <= k <= s.len() && cut_scan(s, max).text == shown_text(#[trigger] s.take(k))
                && cut_scan(s, max).width == text_width(s.take(k)) && (cut_scan(s, max).stopped
                <==> k < s.len()) && (k < s.len() ==> text_width(s.take(k + 1)) > max),
    decreases s.len(),
{
    if s.len() == 0 {
        assert(s.take(0) =~= Seq::<char>::empty());
    } else {
        let d = s.drop_last();
        lemma_cut_keeps_longest_fitting_start(d, max);
        let k = choose|k: int|
            0 <= k <= d.len() && cut_scan(d, max).text == shown_text(#[trigger] d.take(k))
                && cut_scan(d, max).width == text_width(d.take(k)) && (cut_scan(d, max).stopped
                <==> k < d.len()) && (k < d.len() ==> text_width(d.take(k + 1)) > max);
        assert(d.take(k) =~= s.take(k));
        if k < d.len() {
            assert(d.take(k + 1) =~= s.take(k + 1));
        } else {
            assert(d =~= s.take(k));
            assert(s.take(k + 1) =~= s);
            assert(s.take(k + 1).drop_last() =~= d);
            let p = cut_scan(d, max);
            let w = cell_width(s.last());
            if p.width + w > usize::MAX || p.width + w > max {
                assert(text_width(s.take(k + 1)) > max);
            } else {
                assert(s.take(k + 1) =~= s);
                assert(shown_text(s) == shown_text(d) + shown(s.last()));
            }
        }
    }
}

/// Truncate a string to fit within the given character width.
/// Returns the truncated string and its visual width.
pub fn truncate_to_width(s: &str, max_width: usize) -> (r: (String, usize))
    requires
        max_width <= usize::MAX - 4 || !cut_scan(s@, max_width as nat).overflow,
    ensures
        r.0@ == cut_scan(s@, max_width as nat).text,
        r.1 == cut_scan(s@, max_width as nat).width,
        r.1 <= max_width,
{
    let chars = chars_of(s);
    let mut result = String::new();
    let mut width: usize = 0;
    let mut i: usize = 0;
    assert(chars@.take(0) =~= Seq::<char>::empty());
    while i < chars.len()
        invariant
            i <= chars.len(),
            chars@ == s@,
            max_width <= usize::MAX - 4 || !cut_scan(s@, max_width as nat).overflow,
            cut_scan(chars@.take(i as int), max_width as nat) == (Cut {
                text: result@,
                width: width as nat,
                stopped: false,
                overflow: false,
            }),
        decreases chars.len() - i,
    {
        let ch = chars[i];
        let ch_width: usize = if ch == '\t' {
            4
        } else {
            match char_width(ch) {
                Some(w) => w,
                None => 0,
            }
        };
        proof {
            assert(chars@.take(i + 1).drop_last() == chars@.take(i as int));
            assert(chars@.take(i + 1).last() == ch);
            assert(ch_width == cell_width(ch));
            assert(ch_width <= 4);
        }
        proof {
            if width + ch_width > usize::MAX {
                lemma_cut_stays(chars@, max_width as nat, i + 1);
            }
        }
        if width + ch_width > max_width {
            proof {
                lemma_cut_stays(chars@, max_width as nat, i + 1);
                lemma_cut_width(s@, max_width as nat);
            }
            return (result, width);
        }
        if ch == '\t' {
            push_char(&mut result, ' ');
            push_char(&mut result, ' ');
            push_char(&mut result, ' ');
            push_char(&mut result, ' ');
        } else {
            push_char(&mut result, ch);
        }
        width += ch_width;
        i += 1;
        proof {
            assert(result@ =~= cut_scan(chars@.take(i - 1), max_width as nat).text + shown(ch));
        }
    }
    proof {
        lemma_cut_width(s@, max_width as nat);
        if i == chars.len() {
            assert(chars@.take(i as int) == chars@);
        }
    }
    (result, width)
}

// ---------------------------------------------------------------------------
// The side-by-side panel
// ---------------------------------------------------------------------------

/// `10^k`.
pub open spec fn pow10(k: nat) -> nat
    decreases k,
{
    if k == 0 {
        1
    } else {
        10 * pow10((k - 1) as nat)
    }
}

proof fn lemma_digits_below(n: nat, k: nat)
    requires
        k >= 1,
        n < pow10(k),
    ensures
        decimal_digits(n) <= k,
    decreases k,
{
    if n >= 10 {
        let p = pow10((k - 1) as nat);
        assert(n / 10 < p) by (nonlinear_arith)
            requires
                n < 10 * p,
                n >= 10,
        ;
        if k == 1 {
            assert(pow10(1) == 10) by {
                reveal_with_fuel(pow10, 2);
            }
        } else {
            lemma_digits_below(n / 10, (k - 1) as nat);
        }
    }
}

/// A `usize` has at most 20 decimal digits.
proof fn lemma_usize_digits(n: usize)
    ensures
        decimal_digits(n as nat) <= 20,
{
    assert(pow10(20) == 100000000000000000000nat) by {
        reveal_with_fuel(pow10, 21);
    }
    lemma_digits_below(n as nat, 20);
}

/// Where the side-by-side rows go: the gutter width for line numbers, the
/// width of each side's text, and the rows `start..end` shown.
#[derive(Debug, Clone, Copy, PartialEq, Eq)]
pub struct SideBySideLayout {
    pub ln_width: usize,
    pub content_width: u16,
    pub start: usize,
    pub end: usize,
}

/// The layout of `row_count` rows of a diff whose largest line number is
/// `max_lineno`, in an area of the given size, the first row shown being
/// the scroll cursor. `None` when the area is narrower than 10 columns or
/// has no height. Each side gets half of what the two gutters (a line
/// number and a space each) and the 3-column separator leave, at least 1.
pub open spec fn layout_of(
    area_width: u16,
    area_height: u16,
    max_lineno: usize,
    cursor: usize,
    row_count: usize,
) -> Option<SideBySideLayout> {
    if area_width < 10 || area_height == 0 {
        None
    } else {
        let ln_width = decimal_digits(max_lineno as nat) as usize;
        let fixed = (ln_width as u16) * 2 + 2 + 3;
        let content_width = if area_width > fixed {
            ((area_width - fixed) / 2) as u16
        } else {
            1
        };
        let start = if cursor < row_count {
            cursor
        } else {
            row_count
        };
        let end = if start + area_height < row_count {
            (start + area_height) as usize
        } else {
            row_count
        };
        Some(SideBySideLayout { ln_width, content_width, start, end })
    }
}

/// Computes the layout of the side-by-side panel.
pub fn side_by_side_layout(
    area_width: u16,
    area_height: u16,
    max_lineno: usize,
    cursor: usize,
    row_count: usize,
) -> (layout: Option<SideBySideLayout>)
    requires
        (if cursor < row_count {
            cursor
        } else {
            row_count
        }) + area_height <= usize::MAX,
    ensures
        layout == layout_of(area_width, area_height, max_lineno, cursor, row_count),
{
    if area_width < 10 || area_height == 0 {
        return None;
    }
    let ln_width = lineno_width(max_lineno);
    proof {
        lemma_usize_digits(max_lineno);
    }
    // separator is 3 chars: " │ "
    let separator_width: u16 = 3;
    let ln_col_width = ln_width as u16;
    // Each side: lineno + space + content
    let fixed = ln_col_width * 2 + 2 + separator_width;
    let content_width = if area_width > fixed {
        (area_width - fixed) / 2
    } else {
        1
    };
    // The cursor is the first row shown (the diff panel has no visible cursor)
    let start = if cursor < row_count {
        cursor
    } else {
        row_count
    };
    let end = if start + (area_height as usize) < row_count {
        start + area_height as usize
    } else {
        row_count
    };
    Some(SideBySideLayout { ln_width, content_width, start, end })
}

/// The texts of a separator row between hunks: the `~` in each gutter, and
/// the runs of `~` that fill the left and right sides.
pub struct SeparatorCells {
    pub lineno: String,
    pub left: String,
    pub right: String,
}

/// The width of the right side of a separator row: what the total width
/// leaves after both gutters, the left side and the separator, or the left
/// side's width when nothing is left.
pub open spec fn separator_right_width(
    total_width: u16,
    ln_width: usize,
    content_width: u16,
    separator_width: u16,
) -> nat {
    let used = (ln_width as u16) + 1 + content_width + separator_width + (ln_width as u16) + 1;
    if total_width > used {
        (total_width - used) as nat
    } else {
        content_width as nat
    }
}

/// Computes the texts of a separator row.
pub fn hunk_separator_cells(
    total_width: u16,
    ln_width: usize,
    content_width: u16,
    separator_width: u16,
) -> (cells: SeparatorCells)
    requires
        (ln_width as u16) * 2 + 2 + content_width + separator_width <= u16::MAX,
    ensures
        cells.lineno@ == pad_left(seq!['~'], ln_width as nat),
        cells.left@ == repeated('~', content_width as nat),
        cells.right@ == repeated(
            '~',
            separator_right_width(total_width, ln_width, content_width, separator_width),
        ),
{
    let mut lineno = String::new();
    if 1 < ln_width {
        push_repeated(&mut lineno, ' ', ln_width - 1);
    }
    push_char(&mut lineno, '~');
    assert(lineno@ =~= pad_left(seq!['~'], ln_width as nat));
    let mut left = String::new();
    push_repeated(&mut left, '~', content_width as usize);
    assert(left@ =~= repeated('~', content_width as nat));
    // Calculate remaining width for right content
    let used = ln_width as u16 + 1 + content_width + separator_width + ln_width as u16 + 1;
    let right_content_width = if total_width > used {
        (total_width - used) as usize
    } else {
        content_width as usize
    };
    let mut right = String::new();
    push_repeated(&mut right, '~', right_content_width);
    assert(right@ =~= repeated('~', right_content_width as nat));
    SeparatorCells { lineno, left, right }
}

/// The texts of one side of a line row: a filled side has its line number
/// right-aligned in the gutter, its text cut to the side's width and the
/// number of spaces that pad it to that width; a blank side is that many
/// spaces wide.
pub enum SideCells {
    Filled { lineno: String, text: String, padding: usize },
    Blank { width: usize },
}

/// Computes the texts of one side of a line row.
pub fn side_cells(side: &Option<SideContent>, ln_width: usize, content_width: u16) -> (cells:
    SideCells)
    requires
        side is None ==> ln_width + 1 + content_width <= usize::MAX,
    ensures
        match (side, cells) {
            (Some(c), SideCells::Filled { lineno, text, padding }) => {
                let cut = cut_scan(c.content@, content_width as nat);
                &&& lineno@ == pad_left(decimal(c.lineno as nat), ln_width as nat)
                &&& text@ == cut.text
                &&& padding == content_width - cut.width
            },
            (None, SideCells::Blank { width }) => width == ln_width + 1 + content_width,
            _ => false,
        },
{
    match side {
        Some(content) => {
            let lineno = lineno_text(content.lineno, ln_width);
            let (text, visual_width) = truncate_to_width(
                content.content.as_str(),
                content_width as usize,
            );
            let padding = content_width as usize - visual_width;
            SideCells::Filled { lineno, text, padding }
        },
        None => SideCells::Blank { width: ln_width + 1 + content_width as usize },
    }
}

// ---------------------------------------------------------------------------
// The file list and the status bar
// ---------------------------------------------------------------------------

/// The indentation of a row at nesting depth `depth`: two spaces a level.
pub fn indent(depth: usize) -> (s: String)
    requires
        2 * depth <= usize::MAX,
    ensures
        s@ == repeated(' ', 2 * depth as nat),
{
    let mut s = String::new();
    push_repeated(&mut s, ' ', 2 * depth);
    s
}

/// The marker of a directory row: a down-pointing triangle when it is
/// expanded, a right-pointing one when collapsed.
pub open spec fn dir_marker(expanded: bool) -> char {
    if expanded {
        '\u{25bc}'
    } else {
        '\u{25b6}'
    }
}

/// The text of a directory row: indentation, marker, a space, the name and
/// a slash.
pub fn directory_label(depth: usize, expanded: bool, name: &str) -> (s: String)
    requires
        2 * depth <= usize::MAX,
    ensures
        s@ == repeated(' ', 2 * depth as nat) + seq![dir_marker(expanded), ' '] + name@ + seq![
            '/',
        ],
{
    let mut s = indent(depth);
    push_char(&mut s, if expanded {
        '\u{25bc}'
    } else {
        '\u{25b6}'
    });
    push_char(&mut s, ' ');
    s.append(name);
    push_char(&mut s, '/');
    assert(s@ =~= repeated(' ', 2 * depth as nat) + seq![dir_marker(expanded), ' '] + name@
        + seq!['/']);
    s
}

/// The status column of a file row: the status letter and a space, drawn
/// between the row's indentation and the file's name.
pub fn status_label(status: FileStatus) -> (s: String)
    ensures
        s@ == seq![status_letter(status), ' '],
{
    let mut s = status.to_string();
    push_char(&mut s, ' ');
    assert(s@ =~= seq![status_letter(status), ' ']);
    s
}

/// The keys the active panel answers to, as the status bar lists them.
pub fn help_text(panel: Panel) -> (help: &'static str)
    ensures
        help@ == match panel {
            Panel::CommitList => " j/k: navigate  g/G: first/last  Tab: files  q/Esc: quit"@,
            Panel::FileList => " j/k: navigate  J/K: scroll diff  Enter/Tab: diff  q/Esc: quit"@,
            Panel::Diff => " j/k: scroll  PgUp/PgDn: page  g/G: top/bottom  Tab/Esc: files  q: quit"@,
        },
{
    match panel {
        Panel::CommitList => " j/k: navigate  g/G: first/last  Tab: files  q/Esc: quit",
        Panel::FileList => " j/k: navigate  J/K: scroll diff  Enter/Tab: diff  q/Esc: quit",
        Panel::Diff => " j/k: scroll  PgUp/PgDn: page  g/G: top/bottom  Tab/Esc: files  q: quit",
    }
}

} // verus!
