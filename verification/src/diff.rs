//! Types and parser for unified diff output, transformed into side-by-side rows.
use vstd::prelude::*;

use crate::text::{
    chars_of, is_white_space, lemma_lines_of_concat, lines_of, split_lines, string_of, white_space,
};
use crate::ui::{decimal, digit_char};

verus! {

// ---------------------------------------------------------------------------
// Decimal numbers
// ---------------------------------------------------------------------------

/// An ASCII decimal digit.
pub open spec fn is_digit(c: char) -> bool {
    '0' <= c <= '9'
}

/// The value of a string of decimal digits (0 for the empty string).
pub open spec fn digits_value(s: Seq<char>) -> nat
    decreases s.len(),
{
    if s.len() == 0 {
        0
    } else {
        digits_value(s.drop_last()) * 10 + ((s.last() as int) - ('0' as int)) as nat
    }
}

/// `s` without one leading `+`.
pub open spec fn unsigned_part(s: Seq<char>) -> Seq<char> {
    if s.len() > 0 && s[0] == '+' {
        s.drop_first()
    } else {
        s
    }
}

/// Every character of `s` is a decimal digit.
pub open spec fn all_digits(s: Seq<char>) -> bool {
    forall|i: int| 0 <= i < s.len() ==> is_digit(#[trigger] s[i])
}

/// What `str::parse::<usize>` gives: an optional `+`, then one or more
/// decimal digits whose value fits in a `usize`.
pub open spec fn parse_usize(s: Seq<char>) -> Option<usize> {
    let d = unsigned_part(s);
    if d.len() > 0 && all_digits(d) && digits_value(d) <= usize::MAX {
        Some(digits_value(d) as usize)
    } else {
        None
    }
}

proof fn lemma_digits_value_grows(s: Seq<char>, k: int)
    requires
        0 <= k <= s.len(),
        forall|i: int| 0 <= i < s.len() ==> is_digit(#[trigger] s[i]),
    ensures
        digits_value(s.take(k)) <= digits_value(s),
    decreases s.len() - k,
{
    if k < s.len() {
        lemma_digits_value_grows(s, k + 1);
        assert(s.take(k + 1).drop_last() == s.take(k));
    } else {
        assert(s.take(k) == s);
    }
}

/// Parses `chars[from..to]` as `str::parse::<usize>` would.
fn parse_usize_range(chars: &Vec<char>, from: usize, to: usize) -> (r: Option<usize>)
    requires
        from <= to <= chars.len(),
    ensures
        r == parse_usize(chars@.subrange(from as int, to as int)),
{
    let ghost s = chars@.subrange(from as int, to as int);
    let mut start = from;
    if from < to && chars[from] == '+' {
        start = from + 1;
    }
    let ghost d = chars@.subrange(start as int, to as int);
    assert(d == unsigned_part(s));
    if start == to {
        return None;
    }
    let mut acc: usize = 0;
    let mut k = start;
    while k < to
        invariant
            from <= start <= k <= to <= chars.len(),
            d == chars@.subrange(start as int, to as int),
            s == chars@.subrange(from as int, to as int),
            d == unsigned_part(s),
            forall|i: int| 0 <= i < k - start ==> is_digit(#[trigger] d[i]),
            acc as nat == digits_value(d.take(k - start)),
        decreases to - k,
    {
        let c = chars[k];
        assert(d[k - start] == c);
        if c < '0' || c > '9' {
            assert(!is_digit(d[k - start]));
            return None;
        }
        let digit = (c as u32 - '0' as u32) as usize;
        assert(digit == (c as int) - ('0' as int));
        proof {
            assert(d.take(k - start + 1).drop_last() == d.take(k - start));
            assert(d.take(k - start + 1).last() == c);
        }
        match acc.checked_mul(10) {
            Some(m) => match m.checked_add(digit) {
                Some(v) => {
                    acc = v;
                },
                None => {
                    proof {
                        if all_digits(d) {
                            lemma_digits_value_grows(d, k - start + 1);
                        }
                    }
                    return None;
                },
            },
            None => {
                proof {
                    if all_digits(d) {
                        lemma_digits_value_grows(d, k - start + 1);
                    }
                }
                return None;
            },
        }
        k += 1;
    }
    assert(d.take(to - start) == d);
    Some(acc)
}

// ---------------------------------------------------------------------------
// Hunk headers
// ---------------------------------------------------------------------------

/// ` @@` starts at position `i` of `s`.
pub open spec fn closing_at(s: Seq<char>, i: int) -> bool {
    &&& 0 <= i
    &&& i + 3 <= s.len()
    &&& s[i] == ' '
    &&& s[i + 1] == '@'
    &&& s[i + 2] == '@'
}

/// The first position at or after `i` where ` @@` starts, or the length of
/// `s` when there is none.
pub open spec fn find_closing(s: Seq<char>, i: int) -> int
    decreases s.len() - i,
{
    if i < 0 || i + 3 > s.len() {
        s.len() as int
    } else if closing_at(s, i) {
        i
    } else {
        find_closing(s, i + 1)
    }
}

/// The first position at or after `i` and before `end` that is not white
/// space, or `end`.
pub open spec fn skip_white(s: Seq<char>, i: int, end: int) -> int
    decreases end - i,
{
    if 0 <= i < end && is_white_space(s[i]) {
        skip_white(s, i + 1, end)
    } else {
        i
    }
}

/// The first position at or after `i` and before `end` that is white space,
/// or `end`.
pub open spec fn skip_word(s: Seq<char>, i: int, end: int) -> int
    decreases end - i,
{
    if 0 <= i < end && !is_white_space(s[i]) {
        skip_word(s, i + 1, end)
    } else {
        i
    }
}

/// The first position at or after `i` and before `end` that holds a comma,
/// or `end`.
pub open spec fn find_comma(s: Seq<char>, i: int, end: int) -> int
    decreases end - i,
{
    if 0 <= i < end && s[i] != ',' {
        find_comma(s, i + 1, end)
    } else {
        i
    }
}

/// The start of a hunk range: the number in a token such as `-10,5` or
/// `+12`, read after its sign and up to the first comma.
pub open spec fn range_start(s: Seq<char>, start: int, end: int) -> Option<usize> {
    parse_usize(s.subrange(start + 1, find_comma(s, start + 1, end)))
}

/// The line numbers at which a hunk header `@@ -old[,n] +new[,m] @@ ...`
/// starts its old and new sides; `None` when `s` is no such header.
///
/// The text between `@@ ` and the first ` @@` (or the end of the line) is
/// split at white space; its first word must start with `-` and its second
/// with `+`, and what follows each sign up to a comma must be a number.
pub open spec fn hunk_header(s: Seq<char>) -> Option<(usize, usize)> {
    if !(s.len() >= 3 && s[0] == '@' && s[1] == '@' && s[2] == ' ') {
        None
    } else {
        let end = find_closing(s, 3);
        let a0 = skip_white(s, 3, end);
        let e0 = skip_word(s, a0, end);
        let a1 = skip_white(s, e0, end);
        let e1 = skip_word(s, a1, end);
        if a0 >= end || a1 >= end || s[a0] != '-' || s[a1] != '+' {
            None
        } else {
            match (range_start(s, a0, e0), range_start(s, a1, e1)) {
                (Some(old_start), Some(new_start)) => Some((old_start, new_start)),
                _ => None,
            }
        }
    }
}

proof fn lemma_scan_bounds(s: Seq<char>, i: int, end: int)
    requires
        0 <= i <= end,
    ensures
        i <= skip_white(s, i, end) <= end,
        i <= skip_word(s, i, end) <= end,
        i <= find_comma(s, i, end) <= end,
    decreases end - i,
{
    if i < end {
        lemma_scan_bounds(s, i + 1, end);
    }
}

fn find_closing_exec(s: &Vec<char>) -> (r: usize)
    requires
        s.len() >= 3,
    ensures
        r == find_closing(s@, 3),
        3 <= r <= s.len(),
{
    let mut i: usize = 3;
    while s.len() - i >= 3 && !(s[i] == ' ' && s[i + 1] == '@' && s[i + 2] == '@')
        invariant
            3 <= i <= s.len(),
            find_closing(s@, 3) == find_closing(s@, i as int),
        decreases s.len() - i,
    {
        i += 1;
    }
    if s.len() - i >= 3 {
        i
    } else {
        s.len()
    }
}

fn skip_white_exec(s: &Vec<char>, i: usize, end: usize) -> (r: usize)
    requires
        i <= end <= s.len(),
    ensures
        r == skip_white(s@, i as int, end as int),
        i <= r <= end,
{
    let mut k = i;
    while k < end && white_space(s[k])
        invariant
            i <= k <= end <= s.len(),
            skip_white(s@, i as int, end as int) == skip_white(s@, k as int, end as int),
        decreases end - k,
    {
        k += 1;
    }
    k
}

fn skip_word_exec(s: &Vec<char>, i: usize, end: usize) -> (r: usize)
    requires
        i <= end <= s.len(),
    ensures
        r == skip_word(s@, i as int, end as int),
        i <= r <= end,
{
    let mut k = i;
    while k < end && !white_space(s[k])
        invariant
            i <= k <= end <= s.len(),
            skip_word(s@, i as int, end as int) == skip_word(s@, k as int, end as int),
        decreases end - k,
    {
        k += 1;
    }
    k
}

fn find_comma_exec(s: &Vec<char>, i: usize, end: usize) -> (r: usize)
    requires
        i <= end <= s.len(),
    ensures
        r == find_comma(s@, i as int, end as int),
        i <= r <= end,
{
    let mut k = i;
    while k < end && s[k] != ','
        invariant
            i <= k <= end <= s.len(),
            find_comma(s@, i as int, end as int) == find_comma(s@, k as int, end as int),
        decreases end - k,
    {
        k += 1;
    }
    k
}

/// The hunk header of one line of a diff, read from its characters.
fn header_of(s: &Vec<char>) -> (r: Option<(usize, usize)>)
    ensures
        r == hunk_header(s@),
{
    if !(s.len() >= 3 && s[0] == '@' && s[1] == '@' && s[2] == ' ') {
        return None;
    }
    let end = find_closing_exec(s);
    let a0 = skip_white_exec(s, 3, end);
    let e0 = skip_word_exec(s, a0, end);
    let a1 = skip_white_exec(s, e0, end);
    let e1 = skip_word_exec(s, a1, end);
    if a0 >= end || a1 >= end || s[a0] != '-' || s[a1] != '+' {
        return None;
    }
    proof {
        lemma_scan_bounds(s@, a0 + 1, end as int);
        lemma_scan_bounds(s@, a1 + 1, end as int);
    }
    let c0 = find_comma_exec(s, a0 + 1, e0);
    let old_start = parse_usize_range(s, a0 + 1, c0);
    let c1 = find_comma_exec(s, a1 + 1, e1);
    let new_start = parse_usize_range(s, a1 + 1, c1);
    match (old_start, new_start) {
        (Some(o), Some(n)) => Some((o, n)),
        _ => None,
    }
}

/// Parse a hunk header like `@@ -old_start,old_count +new_start,new_count @@`
/// Returns (old_start, new_start) or None if the line isn't a valid hunk header.
pub fn parse_hunk_header(line: &str) -> (r: Option<(usize, usize)>)
    ensures
        r == hunk_header(line@),
{
    let chars = chars_of(line);
    header_of(&chars)
}

/// Every character of a number written in decimal is a digit, and the
/// digits read back as the number.
proof fn lemma_decimal_reads_back(n: nat)
    ensures
        decimal(n).len() >= 1,
        all_digits(decimal(n)),
        digits_value(decimal(n)) == n,
    decreases n,
{
    let s = decimal(n);
    if n >= 10 {
        lemma_decimal_reads_back(n / 10);
        assert(s.drop_last() =~= decimal(n / 10));
        assert(s.last() == digit_char(n % 10));
        assert(((48 + n % 10) as char) as int == 48 + n % 10);
        assert(('0' as int) == 48);
        assert(digits_value(s) == digits_value(decimal(n / 10)) * 10 + n % 10);
        assert forall|i: int| 0 <= i < s.len() implies is_digit(#[trigger] s[i]) by {
            if i < s.len() - 1 {
                assert(s[i] == decimal(n / 10)[i]);
            }
        }
    } else {
        assert(((48 + n) as char) as int == 48 + n);
        assert(('0' as int) == 48);
        assert(s.drop_last() =~= Seq::<char>::empty());
        assert(digits_value(s.drop_last()) == 0);
    }
}

proof fn lemma_skip_word_to(s: Seq<char>, i: int, end: int, j: int)
    requires
        0 <= i <= j <= end,
        forall|k: int| i <= k < j ==> !is_white_space(#[trigger] s[k]),
        j == end || is_white_space(s[j]),
    ensures
        skip_word(s, i, end) == j,
    decreases j - i,
{
    if i < j {
        lemma_skip_word_to(s, i + 1, end, j);
    }
}

proof fn lemma_find_comma_to(s: Seq<char>, i: int, end: int, j: int)
    requires
        0 <= i <= j <= end,
        forall|k: int| i <= k < j ==> #[trigger] s[k] != ',',
        j == end || s[j] == ',',
    ensures
        find_comma(s, i, end) == j,
    decreases j - i,
{
    if i < j {
        lemma_find_comma_to(s, i + 1, end, j);
    }
}

proof fn lemma_find_closing_to(s: Seq<char>, i: int, j: int)
    requires
        0 <= i <= j,
        closing_at(s, j),
        forall|k: int| i <= k < j ==> !#[trigger] closing_at(s, k),
    ensures
        find_closing(s, i) == j,
    decreases j - i,
{
    if i < j {
        lemma_find_closing_to(s, i + 1, j);
    }
}

/// `@@ -` then `a` with `more_old` after it, ` +` then `c` with `more_new`
/// after it, ` @@` and `rest`: the shape of every hunk header.
pub open spec fn header_with(
    a: nat,
    more_old: Seq<char>,
    c: nat,
    more_new: Seq<char>,
    rest: Seq<char>,
) -> Seq<char> {
    seq!['@', '@', ' ', '-'] + decimal(a) + more_old + seq![' ', '+'] + decimal(c) + more_new
        + seq![' ', '@', '@'] + rest
}

/// The text of the hunk header `@@ -a,b +c,d @@` followed by `rest`.
pub open spec fn header_line(a: usize, b: usize, c: usize, d: usize, rest: Seq<char>) -> Seq<
    char,
> {
    seq!['@', '@', ' ', '-'] + decimal(a as nat) + seq![','] + decimal(b as nat) + seq![' ', '+']
        + decimal(c as nat) + seq![','] + decimal(d as nat) + seq![' ', '@', '@'] + rest
}

/// The text of the short hunk header `@@ -a +c @@`.
pub open spec fn short_header_line(a: usize, c: usize) -> Seq<char> {
    seq!['@', '@', ' ', '-'] + decimal(a as nat) + seq![' ', '+'] + decimal(c as nat) + seq![
        ' ',
        '@',
        '@',
    ]
}

/// What may follow a range's start inside its word: nothing, or a comma
/// and characters that are not white space.
pub open spec fn range_tail(t: Seq<char>) -> bool {
    &&& t.len() == 0 || t[0] == ','
    &&& forall|k: int| 0 <= k < t.len() ==> !is_white_space(#[trigger] t[k])
}

proof fn lemma_header_with(a: nat, more_old: Seq<char>, c: nat, more_new: Seq<char>, rest: Seq<char>)
    requires
        a <= usize::MAX,
        c <= usize::MAX,
        range_tail(more_old),
        range_tail(more_new),
    ensures
        hunk_header(header_with(a, more_old, c, more_new, rest)) == Some((a as usize, c as usize)),
{
    let s = header_with(a, more_old, c, more_new, rest);
    let da = decimal(a);
    let dc = decimal(c);
    lemma_decimal_reads_back(a);
    lemma_decimal_reads_back(c);
    let la = da.len() as int;
    let lc = dc.len() as int;
    let p1 = 4 + la + more_old.len();
    let q = p1 + 2 + lc + more_new.len();
    assert(s.len() == q + 3 + rest.len());
    assert(s[0] == '@' && s[1] == '@' && s[2] == ' ' && s[3] == '-');
    assert forall|k: int| 4 <= k < 4 + la implies s[k] == da[k - 4] by {}
    assert forall|k: int| 4 + la <= k < p1 implies s[k] == more_old[k - 4 - la] by {}
    assert(s[p1] == ' ' && s[p1 + 1] == '+');
    assert forall|k: int| p1 + 2 <= k < p1 + 2 + lc implies s[k] == dc[k - p1 - 2] by {}
    assert forall|k: int| p1 + 2 + lc <= k < q implies s[k] == more_new[k - p1 - 2 - lc] by {}
    assert(s[q] == ' ' && s[q + 1] == '@' && s[q + 2] == '@');
    // Only the digits and the tails lie inside the two words.
    assert forall|k: int| 4 <= k < p1 implies !is_white_space(#[trigger] s[k]) && s[k] != ' ' by {
        if k < 4 + la {
            assert(is_digit(da[k - 4]));
        } else {
            assert(!is_white_space(more_old[k - 4 - la]));
        }
    }
    assert forall|k: int| p1 + 2 <= k < q implies !is_white_space(#[trigger] s[k]) && s[k] != ' ' by {
        if k < p1 + 2 + lc {
            assert(is_digit(dc[k - p1 - 2]));
        } else {
            assert(!is_white_space(more_new[k - p1 - 2 - lc]));
        }
    }
    assert forall|k: int| 3 <= k < q implies !#[trigger] closing_at(s, k) by {
        if k == 3 {
        } else if k < p1 {
            assert(!is_white_space(s[k]));
        } else if k == p1 {
        } else if k == p1 + 1 {
        } else {
            assert(!is_white_space(s[k]));
        }
    }
    lemma_find_closing_to(s, 3, q);
    assert forall|k: int| 3 <= k < p1 implies !is_white_space(#[trigger] s[k]) by {
        if k > 3 {
            assert(!is_white_space(s[k]));
        }
    }
    lemma_skip_word_to(s, 3, q, p1);
    assert forall|k: int| p1 + 1 <= k < q implies !is_white_space(#[trigger] s[k]) by {
        if k > p1 + 1 {
            assert(!is_white_space(s[k]));
        }
    }
    lemma_skip_word_to(s, p1 + 1, q, q);
    assert(skip_white(s, 3, q) == 3);
    assert(skip_white(s, p1 + 1, q) == p1 + 1);
    assert(skip_white(s, p1, q) == p1 + 1);
    assert forall|k: int| 4 <= k < 4 + la implies #[trigger] s[k] != ',' by {
        assert(is_digit(da[k - 4]));
    }
    lemma_find_comma_to(s, 4, p1, 4 + la);
    assert forall|k: int| p1 + 2 <= k < p1 + 2 + lc implies #[trigger] s[k] != ',' by {
        assert(is_digit(dc[k - p1 - 2]));
    }
    lemma_find_comma_to(s, p1 + 2, q, p1 + 2 + lc);
    assert(s.subrange(4, 4 + la) =~= da);
    assert(s.subrange(p1 + 2, p1 + 2 + lc) =~= dc);
    assert(unsigned_part(da) == da);
    assert(unsigned_part(dc) == dc);
}

/// A hunk header written from the numbers `a`, `b`, `c` and `d` as
/// `@@ -a,b +c,d @@`, whatever follows it, reads back as `(a, c)`; so does
/// the short form `@@ -a +c @@`.
pub proof fn lemma_header_reads_back(a: usize, b: usize, c: usize, d: usize, rest: Seq<char>)
    ensures
        hunk_header(header_line(a, b, c, d, rest)) == Some((a, c)),
        hunk_header(short_header_line(a, c)) == Some((a, c)),
{
    let tb = seq![','] + decimal(b as nat);
    let td = seq![','] + decimal(d as nat);
    lemma_decimal_reads_back(b as nat);
    lemma_decimal_reads_back(d as nat);
    assert forall|k: int| 0 <= k < tb.len() implies !is_white_space(#[trigger] tb[k]) by {
        if k > 0 {
            assert(is_digit(decimal(b as nat)[k - 1]));
        }
    }
    assert forall|k: int| 0 <= k < td.len() implies !is_white_space(#[trigger] td[k]) by {
        if k > 0 {
            assert(is_digit(decimal(d as nat)[k - 1]));
        }
    }
    lemma_header_with(a as nat, tb, c as nat, td, rest);
    assert(header_line(a, b, c, d, rest) =~= header_with(a as nat, tb, c as nat, td, rest));
    lemma_header_with(a as nat, Seq::empty(), c as nat, Seq::empty(), Seq::empty());
    assert(short_header_line(a, c) =~= header_with(
        a as nat,
        Seq::empty(),
        c as nat,
        Seq::empty(),
        Seq::empty(),
    ));
}

/// Only a line that starts with `@@ ` is a hunk header.
pub proof fn lemma_header_starts_with_marker(line: Seq<char>)
    requires
        hunk_header(line) is Some,
    ensures
        line.len() >= 3,
        line.take(3) == seq!['@', '@', ' '],
{
    assert(line.take(3) =~= seq!['@', '@', ' ']);
}

// ---------------------------------------------------------------------------
// Side-by-side rows
// ---------------------------------------------------------------------------

/// The kind of content on one side of a side-by-side row.
#[derive(Debug, Clone, Copy, PartialEq, Eq, Structural)]
pub enum RowKind {
    Context,
    Added,
    Deleted,
}

/// Content for one side (left or right) of a side-by-side row.
#[derive(Debug, Clone, PartialEq)]
pub struct SideContent {
    pub lineno: usize,
    pub content: String,
    pub kind: RowKind,
}

/// A single row in the side-by-side view.
#[derive(Debug, Clone, PartialEq)]
pub enum SideBySideRow {
    /// A row with left and/or right content.
    Line { left: Option<SideContent>, right: Option<SideContent> },
    /// Visual separator between hunks.
    HunkSeparator,
}

/// The complete side-by-side diff for a file.
#[derive(Debug, Clone, PartialEq)]
pub struct SideBySideDiff {
    pub rows: Vec<SideBySideRow>,
}

/// What one side of a row shows: a line number, the line's text and its kind.
pub struct SideModel {
    pub lineno: usize,
    pub content: Seq<char>,
    pub kind: RowKind,
}

/// What a row shows.
pub enum RowModel {
    Line { left: Option<SideModel>, right: Option<SideModel> },
    HunkSeparator,
}

impl View for SideContent {
    type V = SideModel;

    open spec fn view(&self) -> SideModel {
        SideModel { lineno: self.lineno, content: self.content@, kind: self.kind }
    }
}

/// The model of an optional side.
pub open spec fn side_view(side: Option<SideContent>) -> Option<SideModel> {
    match side {
        Some(c) => Some(c@),
        None => None,
    }
}

impl View for SideBySideRow {
    type V = RowModel;

    open spec fn view(&self) -> RowModel {
        match self {
            SideBySideRow::Line { left, right } => RowModel::Line {
                left: side_view(*left),
                right: side_view(*right),
            },
            SideBySideRow::HunkSeparator => RowModel::HunkSeparator,
        }
    }
}

/// The models of a sequence of rows.
pub open spec fn rows_view(rows: Seq<SideBySideRow>) -> Seq<RowModel> {
    rows.map_values(|r: SideBySideRow| r@)
}

impl View for SideBySideDiff {
    type V = Seq<RowModel>;

    open spec fn view(&self) -> Seq<RowModel> {
        rows_view(self.rows@)
    }
}

// ---------------------------------------------------------------------------
// Lines of a unified diff
// ---------------------------------------------------------------------------

/// A line of a unified diff, as read inside its hunks: the start of a
/// hunk, or a context, deleted or added line with its text (the line
/// without its first character) and its line numbers.
pub enum ParsedLine {
    HunkStart,
    Context { content: Seq<char>, old_lineno: usize, new_lineno: usize },
    Deleted { content: Seq<char>, old_lineno: usize },
    Added { content: Seq<char>, new_lineno: usize },
}

/// Reading state after some lines of a diff: the lines read so far, the
/// next old and new line numbers, whether a hunk has started, and whether
/// every line number so far fitted in a `usize`.
pub struct ScanState {
    pub lines: Seq<ParsedLine>,
    pub old_next: nat,
    pub new_next: nat,
    pub in_hunk: bool,
    pub fits: bool,
}

/// The reading state before the first line.
pub open spec fn scan_start() -> ScanState {
    ScanState { lines: Seq::empty(), old_next: 0, new_next: 0, in_hunk: false, fits: true }
}

/// `line` begins with `c`.
pub open spec fn starts_with(line: Seq<char>, c: char) -> bool {
    line.len() > 0 && line[0] == c
}

/// Reads one more line. A hunk header starts a hunk at its line numbers;
/// outside hunks other lines are ignored; inside, `\ ` lines (such as
/// `\ No newline at end of file`) are ignored, and lines that start with a
/// space, `-` or `+` are context, deleted and added lines that advance the
/// old side, the new side, or both. Other lines are ignored.
pub open spec fn scan_line(st: ScanState, line: Seq<char>) -> ScanState {
    match hunk_header(line) {
        Some((o, n)) => ScanState {
            lines: st.lines.push(ParsedLine::HunkStart),
            old_next: o as nat,
            new_next: n as nat,
            in_hunk: true,
            fits: st.fits,
        },
        None => if !st.in_hunk {
            st
        } else if line.len() >= 2 && line[0] == '\\' && line[1] == ' ' {
            st
        } else if starts_with(line, ' ') {
            ScanState {
                lines: st.lines.push(
                    ParsedLine::Context {
                        content: line.drop_first(),
                        old_lineno: st.old_next as usize,
                        new_lineno: st.new_next as usize,
                    },
                ),
                old_next: st.old_next + 1,
                new_next: st.new_next + 1,
                in_hunk: true,
                fits: st.fits && st.old_next + 1 <= usize::MAX && st.new_next + 1 <= usize::MAX,
            }
        } else if starts_with(line, '-') {
            ScanState {
                lines: st.lines.push(
                    ParsedLine::Deleted { content: line.drop_first(), old_lineno: st.old_next as usize },
                ),
                old_next: st.old_next + 1,
                fits: st.fits && st.old_next + 1 <= usize::MAX,
                ..st
            }
        } else if starts_with(line, '+') {
            ScanState {
                lines: st.lines.push(
                    ParsedLine::Added { content: line.drop_first(), new_lineno: st.new_next as usize },
                ),
                new_next: st.new_next + 1,
                fits: st.fits && st.new_next + 1 <= usize::MAX,
                ..st
            }
        } else {
            st
        },
    }
}

/// The reading state after the given lines.
pub open spec fn scan_lines(lines: Seq<Seq<char>>) -> ScanState
    decreases lines.len(),
{
    if lines.len() == 0 {
        scan_start()
    } else {
        scan_line(scan_lines(lines.drop_last()), lines.last())
    }
}

/// The lines of the hunks of the unified diff `input`.
pub open spec fn parsed_lines(input: Seq<char>) -> Seq<ParsedLine> {
    scan_lines(lines_of(input)).lines
}

/// Every line number in the hunks of `input` fits in a `usize`: reading
/// them never counts past `usize::MAX`.
pub open spec fn linenos_fit(input: Seq<char>) -> bool {
    scan_lines(lines_of(input)).fits
}

proof fn lemma_unfit_stays(lines: Seq<Seq<char>>, k: int)
    requires
        0 <= k <= lines.len(),
        !scan_lines(lines.take(k)).fits,
    ensures
        !scan_lines(lines).fits,
    decreases lines.len() - k,
{
    if k < lines.len() {
        assert(lines.take(k + 1).drop_last() == lines.take(k));
        lemma_unfit_stays(lines, k + 1);
    } else {
        assert(lines.take(k) == lines);
    }
}

/// A line of a unified diff, read inside a hunk.
enum DiffLine {
    HunkStart,
    Context { content: String, old_lineno: usize, new_lineno: usize },
    Deleted { content: String, old_lineno: usize },
    Added { content: String, new_lineno: usize },
}

impl View for DiffLine {
    type V = ParsedLine;

    closed spec fn view(&self) -> ParsedLine {
        match self {
            DiffLine::HunkStart => ParsedLine::HunkStart,
            DiffLine::Context { content, old_lineno, new_lineno } => ParsedLine::Context {
                content: content@,
                old_lineno: *old_lineno,
                new_lineno: *new_lineno,
            },
            DiffLine::Deleted { content, old_lineno } => ParsedLine::Deleted {
                content: content@,
                old_lineno: *old_lineno,
            },
            DiffLine::Added { content, new_lineno } => ParsedLine::Added {
                content: content@,
                new_lineno: *new_lineno,
            },
        }
    }
}

/// The models of a sequence of diff lines.
spec fn lines_view(v: Seq<DiffLine>) -> Seq<ParsedLine> {
    v.map_values(|l: DiffLine| l@)
}

/// Parse unified diff output into a list of DiffLines with line numbers.
/// `None` when a line number would count past `usize::MAX`.
fn parse_lines(input: &str) -> (r: Option<Vec<DiffLine>>)
    ensures
        r is Some <==> linenos_fit(input@),
        r matches Some(v) ==> lines_view(v@) == parsed_lines(input@),
{
    let chars = chars_of(input);
    let lines = split_lines(&chars);
    let ghost all = crate::text::char_lines(lines@);
    let mut result: Vec<DiffLine> = Vec::new();
    let mut old_lineno: usize = 0;
    let mut new_lineno: usize = 0;
    let mut in_hunk = false;
    let mut k: usize = 0;
    assert(all.take(0) =~= Seq::<Seq<char>>::empty());
    assert(lines_view(result@) =~= Seq::<ParsedLine>::empty());
    while k < lines.len()
        invariant
            k <= lines.len(),
            all == crate::text::char_lines(lines@),
            all == lines_of(input@),
            scan_lines(all.take(k as int)) == (ScanState {
                lines: lines_view(result@),
                old_next: old_lineno as nat,
                new_next: new_lineno as nat,
                in_hunk,
                fits: true,
            }),
        decreases lines.len() - k,
    {
        let line = &lines[k];
        let ghost pre = scan_lines(all.take(k as int));
        proof {
            assert(all.take(k + 1).drop_last() == all.take(k as int));
            assert(all.take(k + 1).last() == line@);
        }
        let ghost before = result@;
        match header_of(line) {
            Some((o, n)) => {
                old_lineno = o;
                new_lineno = n;
                in_hunk = true;
                result.push(DiffLine::HunkStart);
                assert(lines_view(result@) == lines_view(before).push(ParsedLine::HunkStart));
            },
            None => {
                let len = line.len();
                if !in_hunk {
                } else if len >= 2 && line[0] == '\\' && line[1] == ' ' {
                } else if len >= 1 && line[0] == ' ' {
                    if old_lineno == usize::MAX || new_lineno == usize::MAX {
                        proof {
                            lemma_unfit_stays(all, k + 1);
                        }
                        return None;
                    }
                    let content = string_of(line, 1, len);
                    assert(content@ == line@.drop_first());
                    result.push(DiffLine::Context { content, old_lineno, new_lineno });
                    assert(lines_view(result@) == lines_view(before).push(result@.last()@));
                    old_lineno += 1;
                    new_lineno += 1;
                } else if len >= 1 && line[0] == '-' {
                    if old_lineno == usize::MAX {
                        proof {
                            lemma_unfit_stays(all, k + 1);
                        }
                        return None;
                    }
                    let content = string_of(line, 1, len);
                    assert(content@ == line@.drop_first());
                    result.push(DiffLine::Deleted { content, old_lineno });
                    assert(lines_view(result@) == lines_view(before).push(result@.last()@));
                    old_lineno += 1;
                } else if len >= 1 && line[0] == '+' {
                    if new_lineno == usize::MAX {
                        proof {
                            lemma_unfit_stays(all, k + 1);
                        }
                        return None;
                    }
                    let content = string_of(line, 1, len);
                    assert(content@ == line@.drop_first());
                    result.push(DiffLine::Added { content, new_lineno });
                    assert(lines_view(result@) == lines_view(before).push(result@.last()@));
                    new_lineno += 1;
                }
            },
        }
        k += 1;
    }
    assert(all.take(lines.len() as int) == all);
    Some(result)
}

proof fn lemma_scan_without_headers(ls: Seq<Seq<char>>)
    requires
        forall|i: int| 0 <= i < ls.len() ==> hunk_header(#[trigger] ls[i]) is None,
    ensures
        scan_lines(ls) == scan_start(),
    decreases ls.len(),
{
    if ls.len() > 0 {
        let rest = ls.drop_last();
        assert forall|i: int| 0 <= i < rest.len() implies hunk_header(#[trigger] rest[i]) is None by {
            assert(rest[i] == ls[i]);
        }
        lemma_scan_without_headers(rest);
        assert(hunk_header(ls[ls.len() - 1]) is None);
    }
}

proof fn lemma_scan_after_start(x: Seq<Seq<char>>, y: Seq<Seq<char>>)
    requires
        scan_lines(x) == scan_start(),
    ensures
        scan_lines(x + y) == scan_lines(y),
    decreases y.len(),
{
    if y.len() == 0 {
        assert(x + y =~= x);
    } else {
        lemma_scan_after_start(x, y.drop_last());
        assert((x + y).drop_last() =~= x + y.drop_last());
        assert((x + y).last() == y.last());
    }
}

/// No line of `text` is a hunk header.
pub open spec fn no_hunk_header(text: Seq<char>) -> bool {
    forall|i: int| 0 <= i < lines_of(text).len() ==> hunk_header(#[trigger] lines_of(text)[i]) is None
}

/// Lines before the first hunk header (such as the `diff --git`, `index`,
/// `---` and `+++` lines git writes) add nothing: a preamble of whole lines
/// with no hunk header in it reads as no lines and no rows, and in front of
/// a diff it changes neither the lines read, nor the rows, nor whether the
/// line numbers fit. So `parse_lines` and `try_parse_side_by_side` give
/// the same result with the preamble as without it, and nothing for the
/// preamble alone.
pub proof fn lemma_preamble_adds_nothing(preamble: Seq<char>, diff: Seq<char>)
    requires
        preamble.len() == 0 || preamble.last() == '\n',
        no_hunk_header(preamble),
    ensures
        parsed_lines(preamble).len() == 0,
        side_by_side(preamble).len() == 0,
        parsed_lines(preamble + diff) == parsed_lines(diff),
        side_by_side(preamble + diff) == side_by_side(diff),
        linenos_fit(preamble + diff) == linenos_fit(diff),
{
    lemma_lines_of_concat(preamble, diff);
    lemma_scan_without_headers(lines_of(preamble));
    lemma_scan_after_start(lines_of(preamble), lines_of(diff));
}


// ---------------------------------------------------------------------------
// From lines to rows
// ---------------------------------------------------------------------------

/// The end of the run of deleted lines that starts at `i`.
pub open spec fn deleted_run_end(lines: Seq<ParsedLine>, i: int) -> int
    decreases lines.len() - i,
{
    if 0 <= i < lines.len() && lines[i] is Deleted {
        deleted_run_end(lines, i + 1)
    } else {
        i
    }
}

/// The end of the run of added lines that starts at `i`.
pub open spec fn added_run_end(lines: Seq<ParsedLine>, i: int) -> int
    decreases lines.len() - i,
{
    if 0 <= i < lines.len() && lines[i] is Added {
        added_run_end(lines, i + 1)
    } else {
        i
    }
}

/// The left side that a deleted line shows.
pub open spec fn deleted_side(l: ParsedLine) -> SideModel {
    match l {
        ParsedLine::Deleted { content, old_lineno } => SideModel {
            lineno: old_lineno,
            content,
            kind: RowKind::Deleted,
        },
        _ => SideModel { lineno: 0, content: Seq::empty(), kind: RowKind::Deleted },
    }
}

/// The right side that an added line shows.
pub open spec fn added_side(l: ParsedLine) -> SideModel {
    match l {
        ParsedLine::Added { content, new_lineno } => SideModel {
            lineno: new_lineno,
            content,
            kind: RowKind::Added,
        },
        _ => SideModel { lineno: 0, content: Seq::empty(), kind: RowKind::Added },
    }
}

/// The rows of a modification: the deleted lines `lines[start..mid]` paired
/// in order with the added lines `lines[mid..end]`; the longer run's extra
/// lines get a blank on the other side.
pub open spec fn paired_rows(lines: Seq<ParsedLine>, start: int, mid: int, end: int) -> Seq<
    RowModel,
> {
    let nd = mid - start;
    let na = end - mid;
    let n = if nd > na {
        nd
    } else {
        na
    };
    Seq::new(
        n as nat,
        |j: int|
            RowModel::Line {
                left: if j < nd {
                    Some(deleted_side(lines[start + j]))
                } else {
                    None
                },
                right: if j < na {
                    Some(added_side(lines[mid + j]))
                } else {
                    None
                },
            },
    )
}

/// A run of deleted (added) lines starting at `i` ends between `i` and the
/// end of the lines, and every line inside it is deleted (added).
pub proof fn lemma_run_ends(lines: Seq<ParsedLine>, i: int)
    requires
        0 <= i <= lines.len(),
    ensures
        i <= deleted_run_end(lines, i) <= lines.len(),
        i <= added_run_end(lines, i) <= lines.len(),
        forall|k: int| i <= k < deleted_run_end(lines, i) ==> #[trigger] lines[k] is Deleted,
        forall|k: int| i <= k < added_run_end(lines, i) ==> #[trigger] lines[k] is Added,
    decreases lines.len() - i,
{
    if i < lines.len() {
        lemma_run_ends(lines, i + 1);
    }
}

/// The side-by-side rows for the lines from `i` on. A hunk start gives a
/// separator, except for the first one (`first`); a context line shows on
/// both sides; a run of deleted lines is paired with the run of added lines
/// that follows it; an added line with no deletion before it shows on the
/// right only.
pub open spec fn rows_at(lines: Seq<ParsedLine>, i: int, first: bool) -> Seq<RowModel>
    decreases lines.len() - i,
{
    if i < 0 || i >= lines.len() {
        Seq::empty()
    } else {
        match lines[i] {
            ParsedLine::HunkStart => (if first {
                Seq::empty()
            } else {
                seq![RowModel::HunkSeparator]
            }) + rows_at(lines, i + 1, false),
            ParsedLine::Context { content, old_lineno, new_lineno } => seq![
                RowModel::Line {
                    left: Some(SideModel { lineno: old_lineno, content, kind: RowKind::Context }),
                    right: Some(SideModel { lineno: new_lineno, content, kind: RowKind::Context }),
                },
            ] + rows_at(lines, i + 1, first),
            ParsedLine::Deleted { .. } => {
                proof {
                    lemma_run_ends(lines, i + 1);
                    lemma_run_ends(lines, deleted_run_end(lines, i));
                }
                let mid = deleted_run_end(lines, i);
                let end = added_run_end(lines, mid);
                paired_rows(lines, i, mid, end) + rows_at(lines, end, first)
            },
            ParsedLine::Added { content, new_lineno } => seq![
                RowModel::Line {
                    left: None,
                    right: Some(SideModel { lineno: new_lineno, content, kind: RowKind::Added }),
                },
            ] + rows_at(lines, i + 1, first),
        }
    }
}

/// The side-by-side rows for a sequence of parsed diff lines.
pub open spec fn rows_of(lines: Seq<ParsedLine>) -> Seq<RowModel> {
    rows_at(lines, 0, true)
}

/// The side-by-side rows of the unified diff `input`.
pub open spec fn side_by_side(input: Seq<char>) -> Seq<RowModel> {
    rows_of(parsed_lines(input))
}

fn is_deleted_line(l: &DiffLine) -> (b: bool)
    ensures
        b == (l@ is Deleted),
{
    match l {
        DiffLine::Deleted { .. } => true,
        _ => false,
    }
}

fn is_added_line(l: &DiffLine) -> (b: bool)
    ensures
        b == (l@ is Added),
{
    match l {
        DiffLine::Added { .. } => true,
        _ => false,
    }
}

/// Appends the rows of the modification that starts with the deleted line
/// `parsed[start]`, and returns where the modification ends.
fn push_modification(parsed: &Vec<DiffLine>, start: usize, rows: &mut Vec<SideBySideRow>) -> (end:
    usize)
    requires
        start < parsed.len(),
        parsed@[start as int]@ is Deleted,
    ensures
        ({
            let lines = lines_view(parsed@);
            let mid = deleted_run_end(lines, start as int);
            &&& end == added_run_end(lines, mid)
            &&& start < end <= parsed.len()
            &&& rows_view(final(rows)@) == rows_view(old(rows)@) + paired_rows(
                lines,
                start as int,
                mid,
                end as int,
            )
        }),
{
    let ghost lines = lines_view(parsed@);
    let ghost before = rows_view(rows@);
    let n = parsed.len();
    proof {
        lemma_run_ends(lines, start + 1);
    }
    let mut i = start;
    while i < n && is_deleted_line(&parsed[i])
        invariant
            n == parsed.len(),
            lines == lines_view(parsed@),
            start <= i <= n,
            deleted_run_end(lines, start as int) == deleted_run_end(lines, i as int),
        decreases n - i,
    {
        i += 1;
    }
    let mid = i;
    proof {
        lemma_run_ends(lines, start as int);
        lemma_run_ends(lines, mid as int);
    }
    while i < n && is_added_line(&parsed[i])
        invariant
            n == parsed.len(),
            lines == lines_view(parsed@),
            mid <= i <= n,
            added_run_end(lines, mid as int) == added_run_end(lines, i as int),
        decreases n - i,
    {
        i += 1;
    }
    let dn = mid - start;
    let an = i - mid;
    let max_len = if dn > an {
        dn
    } else {
        an
    };
    let ghost pairs = paired_rows(lines, start as int, mid as int, i as int);
    let mut j: usize = 0;
    assert(pairs.take(0) =~= Seq::<RowModel>::empty());
    while j < max_len
        invariant
            n == parsed.len(),
            lines == lines_view(parsed@),
            start < mid <= i <= n,
            dn == mid - start,
            an == i - mid,
            max_len == (if dn > an {
                dn
            } else {
                an
            }),
            j <= max_len,
            pairs == paired_rows(lines, start as int, mid as int, i as int),
            forall|k: int| start <= k < mid ==> #[trigger] lines[k] is Deleted,
            forall|k: int| mid <= k < i ==> #[trigger] lines[k] is Added,
            rows_view(rows@) == before + pairs.take(j as int),
        decreases max_len - j,
    {
        let left = if j < dn {
            assert(lines[start + j] == parsed@[start + j]@);
            assert(lines[start + j] is Deleted);
            match &parsed[start + j] {
                DiffLine::Deleted { content, old_lineno } => Some(
                    SideContent { lineno: *old_lineno, content: content.clone(), kind: RowKind::Deleted },
                ),
                _ => None,
            }
        } else {
            None
        };
        let right = if j < an {
            assert(lines[mid + j] == parsed@[mid + j]@);
            assert(lines[mid + j] is Added);
            match &parsed[mid + j] {
                DiffLine::Added { content, new_lineno } => Some(
                    SideContent { lineno: *new_lineno, content: content.clone(), kind: RowKind::Added },
                ),
                _ => None,
            }
        } else {
            None
        };
        let row = SideBySideRow::Line { left, right };
        let ghost prev = rows_view(rows@);
        rows.push(row);
        assert(rows_view(rows@) =~= prev.push(row@));
        assert(row@ == pairs[j as int]);
        assert(pairs.take(j + 1) =~= pairs.take(j as int).push(pairs[j as int]));
        j += 1;
    }
    assert(pairs.take(max_len as int) =~= pairs);
    i
}

/// One step of `rows_at`, unfolded for each kind of line.
proof fn lemma_rows_at_step(lines: Seq<ParsedLine>, i: int, first: bool)
    requires
        0 <= i < lines.len(),
    ensures
        lines[i] is HunkStart ==> rows_at(lines, i, first) == (if first {
            Seq::empty()
        } else {
            seq![RowModel::HunkSeparator]
        }) + rows_at(lines, i + 1, false),
        lines[i] matches ParsedLine::Context { content, old_lineno, new_lineno } ==> rows_at(
            lines,
            i,
            first,
        ) == seq![
            RowModel::Line {
                left: Some(SideModel { lineno: old_lineno, content, kind: RowKind::Context }),
                right: Some(SideModel { lineno: new_lineno, content, kind: RowKind::Context }),
            },
        ] + rows_at(lines, i + 1, first),
        lines[i] matches ParsedLine::Added { content, new_lineno } ==> rows_at(lines, i, first)
            == seq![
            RowModel::Line {
                left: None,
                right: Some(SideModel { lineno: new_lineno, content, kind: RowKind::Added }),
            },
        ] + rows_at(lines, i + 1, first),
        lines[i] is Deleted ==> ({
            let mid = deleted_run_end(lines, i);
            let end = added_run_end(lines, mid);
            rows_at(lines, i, first) == paired_rows(lines, i, mid, end) + rows_at(
                lines,
                end,
                first,
            )
        }),
{
}

/// Transform parsed diff lines into side-by-side rows.
///
/// Groups consecutive delete/add runs and pairs them as modifications.
/// Context lines appear on both sides. Unpaired deletes or adds get a
/// blank on the opposite side.
fn lines_to_rows(parsed: Vec<DiffLine>) -> (rows: Vec<SideBySideRow>)
    ensures
        rows_view(rows@) == rows_of(lines_view(parsed@)),
{
    let ghost lines = lines_view(parsed@);
    let mut rows: Vec<SideBySideRow> = Vec::new();
    let mut i: usize = 0;
    let mut first_hunk = true;
    let n = parsed.len();
    assert(rows_view(rows@) =~= Seq::<RowModel>::empty());
    assert(rows_of(lines) == rows_view(rows@) + rows_at(lines, 0, true));
    while i < n
        invariant
            n == parsed.len(),
            lines == lines_view(parsed@),
            i <= n,
            rows_of(lines) == rows_view(rows@) + rows_at(lines, i as int, first_hunk),
        decreases n - i,
    {
        let ghost before = rows_view(rows@);
        proof {
            lemma_rows_at_step(lines, i as int, first_hunk);
        }
        assert(lines[i as int] == parsed@[i as int]@);
        match &parsed[i] {
            DiffLine::HunkStart => {
                if !first_hunk {
                    rows.push(SideBySideRow::HunkSeparator);
                    assert(rows_view(rows@) =~= before.push(RowModel::HunkSeparator));
                }
                first_hunk = false;
                i += 1;
            },
            DiffLine::Context { content, old_lineno, new_lineno } => {
                let row = SideBySideRow::Line {
                    left: Some(
                        SideContent {
                            lineno: *old_lineno,
                            content: content.clone(),
                            kind: RowKind::Context,
                        },
                    ),
                    right: Some(
                        SideContent {
                            lineno: *new_lineno,
                            content: content.clone(),
                            kind: RowKind::Context,
                        },
                    ),
                };
                rows.push(row);
                assert(rows_view(rows@) =~= before.push(row@));
                i += 1;
            },
            DiffLine::Added { content, new_lineno } => {
                let row = SideBySideRow::Line {
                    left: None,
                    right: Some(
                        SideContent {
                            lineno: *new_lineno,
                            content: content.clone(),
                            kind: RowKind::Added,
                        },
                    ),
                };
                rows.push(row);
                assert(rows_view(rows@) =~= before.push(row@));
                i += 1;
            },
            DiffLine::Deleted { .. } => {
                i = push_modification(&parsed, i, &mut rows);
            },
        }
    }
    rows
}

/// Parse raw `git diff` output into a side-by-side diff, or `None` when a
/// line number in it would count past `usize::MAX`.
pub fn try_parse_side_by_side(input: &str) -> (diff: Option<SideBySideDiff>)
    ensures
        diff is Some <==> linenos_fit(input@),
        diff matches Some(d) ==> d@ == side_by_side(input@),
{
    match parse_lines(input) {
        Some(parsed) => {
            let rows = lines_to_rows(parsed);
            Some(SideBySideDiff { rows })
        },
        None => None,
    }
}

/// Parse raw `git diff` output into a side-by-side diff.
pub fn parse_side_by_side(input: &str) -> (diff: SideBySideDiff)
    requires
        linenos_fit(input@),
    ensures
        diff@ == side_by_side(input@),
{
    match try_parse_side_by_side(input) {
        Some(d) => d,
        None => SideBySideDiff { rows: Vec::new() },
    }
}

// ---------------------------------------------------------------------------
// What every side-by-side diff satisfies
// ---------------------------------------------------------------------------

/// The shape of a row: a line row shows at least one side; a side shown
/// alone is a deleted line on the left or an added line on the right; two
/// sides are a context line shown twice with the same text, or a deleted
/// line beside an added one.
pub open spec fn row_well_formed(r: RowModel) -> bool {
    match r {
        RowModel::HunkSeparator => true,
        RowModel::Line { left, right } => match (left, right) {
            (None, None) => false,
            (Some(l), None) => l.kind == RowKind::Deleted,
            (None, Some(rt)) => rt.kind == RowKind::Added,
            (Some(l), Some(rt)) => (l.kind == RowKind::Context && rt.kind == RowKind::Context
                && l.content == rt.content) || (l.kind == RowKind::Deleted && rt.kind
                == RowKind::Added),
        },
    }
}

/// The number of hunk starts among `lines[i..]`.
pub open spec fn hunk_count(lines: Seq<ParsedLine>, i: int) -> nat
    decreases lines.len() - i,
{
    if i < 0 || i >= lines.len() {
        0
    } else {
        (if lines[i] is HunkStart {
            1nat
        } else {
            0nat
        }) + hunk_count(lines, i + 1)
    }
}

/// The number of separators among `rows`.
pub open spec fn separator_count(rows: Seq<RowModel>) -> nat
    decreases rows.len(),
{
    if rows.len() == 0 {
        0
    } else {
        (if rows[0] is HunkSeparator {
            1nat
        } else {
            0nat
        }) + separator_count(rows.drop_first())
    }
}

proof fn lemma_separator_count_concat(a: Seq<RowModel>, b: Seq<RowModel>)
    ensures
        separator_count(a + b) == separator_count(a) + separator_count(b),
    decreases a.len(),
{
    if a.len() > 0 {
        lemma_separator_count_concat(a.drop_first(), b);
        assert((a + b).drop_first() == a.drop_first() + b);
    } else {
        assert(a + b == b);
    }
}

proof fn lemma_paired_rows_shape(lines: Seq<ParsedLine>, start: int, mid: int, end: int)
    requires
        start <= mid <= end,
    ensures
        forall|k: int|
            0 <= k < paired_rows(lines, start, mid, end).len() ==> row_well_formed(
                #[trigger] paired_rows(lines, start, mid, end)[k],
            ) && !(paired_rows(lines, start, mid, end)[k] is HunkSeparator),
        separator_count(paired_rows(lines, start, mid, end)) == 0,
{
    let p = paired_rows(lines, start, mid, end);
    lemma_no_separators(p);
}

proof fn lemma_no_separators(rows: Seq<RowModel>)
    requires
        forall|k: int| 0 <= k < rows.len() ==> !(#[trigger] rows[k] is HunkSeparator),
    ensures
        separator_count(rows) == 0,
    decreases rows.len(),
{
    if rows.len() > 0 {
        assert(forall|k: int|
            0 <= k < rows.drop_first().len() ==> rows.drop_first()[k] == rows[k + 1]);
        lemma_no_separators(rows.drop_first());
    }
}

/// Every row from `i` on is well formed, and there is one separator for
/// each hunk start, but for the first hunk start when `first`.
pub proof fn lemma_rows_at_shape(lines: Seq<ParsedLine>, i: int, first: bool)
    requires
        0 <= i,
    ensures
        forall|k: int|
            0 <= k < rows_at(lines, i, first).len() ==> row_well_formed(
                #[trigger] rows_at(lines, i, first)[k],
            ),
        separator_count(rows_at(lines, i, first)) == (if first && hunk_count(lines, i) > 0 {
            (hunk_count(lines, i) - 1) as nat
        } else if first {
            0
        } else {
            hunk_count(lines, i)
        }),
    decreases lines.len() - i,
{
    if i < lines.len() {
        lemma_rows_at_step(lines, i, first);
        let r = rows_at(lines, i, first);
        match lines[i] {
            ParsedLine::HunkStart => {
                lemma_rows_at_shape(lines, i + 1, false);
                let head: Seq<RowModel> = if first {
                    Seq::empty()
                } else {
                    seq![RowModel::HunkSeparator]
                };
                let tail = rows_at(lines, i + 1, false);
                lemma_separator_count_concat(head, tail);
                assert(separator_count(seq![RowModel::HunkSeparator]) == 1) by {
                    assert(seq![RowModel::HunkSeparator].drop_first() =~= Seq::<RowModel>::empty());
                    assert(separator_count(Seq::<RowModel>::empty()) == 0);
                }
                assert(separator_count(Seq::<RowModel>::empty()) == 0);
                assert forall|k: int| 0 <= k < r.len() implies row_well_formed(#[trigger] r[k]) by {
                    if k >= head.len() {
                        assert(r[k] == tail[k - head.len()]);
                    }
                }
            },
            ParsedLine::Context { content, old_lineno, new_lineno } => {
                lemma_rows_at_shape(lines, i + 1, first);
                let head = seq![
                    RowModel::Line {
                        left: Some(SideModel { lineno: old_lineno, content, kind: RowKind::Context }),
                        right: Some(
                            SideModel { lineno: new_lineno, content, kind: RowKind::Context },
                        ),
                    },
                ];
                let tail = rows_at(lines, i + 1, first);
                lemma_separator_count_concat(head, tail);
                lemma_no_separators(head);
                assert forall|k: int| 0 <= k < r.len() implies row_well_formed(#[trigger] r[k]) by {
                    if k >= 1 {
                        assert(r[k] == tail[k - 1]);
                    }
                }
            },
            ParsedLine::Added { content, new_lineno } => {
                lemma_rows_at_shape(lines, i + 1, first);
                let head = seq![
                    RowModel::Line {
                        left: None,
                        right: Some(SideModel { lineno: new_lineno, content, kind: RowKind::Added }),
                    },
                ];
                let tail = rows_at(lines, i + 1, first);
                lemma_separator_count_concat(head, tail);
                lemma_no_separators(head);
                assert forall|k: int| 0 <= k < r.len() implies row_well_formed(#[trigger] r[k]) by {
                    if k >= 1 {
                        assert(r[k] == tail[k - 1]);
                    }
                }
            },
            ParsedLine::Deleted { .. } => {
                lemma_run_ends(lines, i + 1);
                let mid = deleted_run_end(lines, i);
                lemma_run_ends(lines, mid);
                let end = added_run_end(lines, mid);
                lemma_hunk_count_skip(lines, i, end);
                lemma_rows_at_shape(lines, end, first);
                let head = paired_rows(lines, i, mid, end);
                let tail = rows_at(lines, end, first);
                lemma_paired_rows_shape(lines, i, mid, end);
                lemma_separator_count_concat(head, tail);
                assert(head.len() > 0);
                assert forall|k: int| 0 <= k < r.len() implies row_well_formed(#[trigger] r[k]) by {
                    if k >= head.len() {
                        assert(r[k] == tail[k - head.len()]);
                    } else {
                        assert(r[k] == head[k]);
                    }
                }
            },
        }
    }
}

/// Lines that are not hunk starts do not change the count of hunk starts.
proof fn lemma_hunk_count_skip(lines: Seq<ParsedLine>, i: int, j: int)
    requires
        0 <= i <= j <= lines.len(),
        forall|k: int| i <= k < j ==> !(#[trigger] lines[k] is HunkStart),
    ensures
        hunk_count(lines, i) == hunk_count(lines, j),
    decreases j - i,
{
    if i < j {
        lemma_hunk_count_skip(lines, i + 1, j);
    }
}

/// Every side-by-side diff is well shaped: each row is well formed, and
/// there is exactly one separator between each two consecutive hunks
/// (one fewer than there are hunks).
pub proof fn lemma_side_by_side_shape(input: Seq<char>)
    ensures
        forall|k: int|
            0 <= k < side_by_side(input).len() ==> row_well_formed(
                #[trigger] side_by_side(input)[k],
            ),
        separator_count(side_by_side(input)) == (if hunk_count(parsed_lines(input), 0) > 0 {
            (hunk_count(parsed_lines(input), 0) - 1) as nat
        } else {
            0
        }),
{
    lemma_rows_at_shape(parsed_lines(input), 0, true);
}

/// The left side that a row shows, if any.
pub open spec fn left_of(r: RowModel) -> Seq<SideModel> {
    match r {
        RowModel::Line { left: Some(l), .. } => seq![l],
        _ => Seq::empty(),
    }
}

/// The right side that a row shows, if any.
pub open spec fn right_of(r: RowModel) -> Seq<SideModel> {
    match r {
        RowModel::Line { right: Some(rt), .. } => seq![rt],
        _ => Seq::empty(),
    }
}

/// The left column of `rows`, top to bottom, blanks left out.
pub open spec fn left_column(rows: Seq<RowModel>) -> Seq<SideModel>
    decreases rows.len(),
{
    if rows.len() == 0 {
        Seq::empty()
    } else {
        left_column(rows.drop_last()) + left_of(rows.last())
    }
}

/// The right column of `rows`, top to bottom, blanks left out.
pub open spec fn right_column(rows: Seq<RowModel>) -> Seq<SideModel>
    decreases rows.len(),
{
    if rows.len() == 0 {
        Seq::empty()
    } else {
        right_column(rows.drop_last()) + right_of(rows.last())
    }
}

/// What a line contributes to the old version: a context line or a deleted
/// line, with its old line number.
pub open spec fn old_part(l: ParsedLine) -> Seq<SideModel> {
    match l {
        ParsedLine::Context { content, old_lineno, .. } => seq![
            SideModel { lineno: old_lineno, content, kind: RowKind::Context },
        ],
        ParsedLine::Deleted { .. } => seq![deleted_side(l)],
        _ => Seq::empty(),
    }
}

/// What a line contributes to the new version: a context line or an added
/// line, with its new line number.
pub open spec fn new_part(l: ParsedLine) -> Seq<SideModel> {
    match l {
        ParsedLine::Context { content, new_lineno, .. } => seq![
            SideModel { lineno: new_lineno, content, kind: RowKind::Context },
        ],
        ParsedLine::Added { .. } => seq![added_side(l)],
        _ => Seq::empty(),
    }
}

/// The old version's lines among `lines[i..]`, in order.
pub open spec fn old_version(lines: Seq<ParsedLine>, i: int) -> Seq<SideModel>
    decreases lines.len() - i,
{
    if i < 0 || i >= lines.len() {
        Seq::empty()
    } else {
        old_part(lines[i]) + old_version(lines, i + 1)
    }
}

/// The new version's lines among `lines[i..]`, in order.
pub open spec fn new_version(lines: Seq<ParsedLine>, i: int) -> Seq<SideModel>
    decreases lines.len() - i,
{
    if i < 0 || i >= lines.len() {
        Seq::empty()
    } else {
        new_part(lines[i]) + new_version(lines, i + 1)
    }
}

proof fn lemma_columns_concat(a: Seq<RowModel>, b: Seq<RowModel>)
    ensures
        left_column(a + b) == left_column(a) + left_column(b),
        right_column(a + b) == right_column(a) + right_column(b),
    decreases b.len(),
{
    if b.len() == 0 {
        assert(a + b == a);
        assert(left_column(a) + left_column(b) == left_column(a));
        assert(right_column(a) + right_column(b) == right_column(a));
    } else {
        lemma_columns_concat(a, b.drop_last());
        assert((a + b).drop_last() == a + b.drop_last());
        assert((a + b).last() == b.last());
        assert(left_column(a) + (left_column(b.drop_last()) + left_of(b.last())) == (left_column(
            a,
        ) + left_column(b.drop_last())) + left_of(b.last()));
        assert(right_column(a) + (right_column(b.drop_last()) + right_of(b.last())) == (
        right_column(a) + right_column(b.drop_last())) + right_of(b.last()));
    }
}

/// The deleted sides of `lines[start..start + n]`.
pub open spec fn deleted_sides(lines: Seq<ParsedLine>, start: int, n: int) -> Seq<SideModel> {
    Seq::new(n as nat, |j: int| deleted_side(lines[start + j]))
}

/// The added sides of `lines[start..start + n]`.
pub open spec fn added_sides(lines: Seq<ParsedLine>, start: int, n: int) -> Seq<SideModel> {
    Seq::new(n as nat, |j: int| added_side(lines[start + j]))
}

proof fn lemma_paired_columns_prefix(lines: Seq<ParsedLine>, start: int, mid: int, end: int, k: int)
    requires
        start <= mid <= end,
        0 <= k <= paired_rows(lines, start, mid, end).len(),
    ensures
        left_column(paired_rows(lines, start, mid, end).take(k)) == deleted_sides(
            lines,
            start,
            if k < mid - start {
                k
            } else {
                mid - start
            },
        ),
        right_column(paired_rows(lines, start, mid, end).take(k)) == added_sides(
            lines,
            mid,
            if k < end - mid {
                k
            } else {
                end - mid
            },
        ),
    decreases k,
{
    let p = paired_rows(lines, start, mid, end);
    if k == 0 {
        assert(p.take(0) =~= Seq::<RowModel>::empty());
        assert(deleted_sides(lines, start, 0) =~= Seq::<SideModel>::empty());
        assert(added_sides(lines, mid, 0) =~= Seq::<SideModel>::empty());
    } else {
        lemma_paired_columns_prefix(lines, start, mid, end, k - 1);
        assert(p.take(k).drop_last() == p.take(k - 1));
        assert(p.take(k).last() == p[k - 1]);
        let nd = mid - start;
        let na = end - mid;
        if k - 1 < nd {
            assert(deleted_sides(lines, start, k) =~= deleted_sides(lines, start, k - 1).push(
                deleted_side(lines[start + k - 1]),
            ));
        } else {
            assert(left_of(p[k - 1]) =~= Seq::<SideModel>::empty());
        }
        if k - 1 < na {
            assert(added_sides(lines, mid, k) =~= added_sides(lines, mid, k - 1).push(
                added_side(lines[mid + k - 1]),
            ));
        } else {
            assert(right_of(p[k - 1]) =~= Seq::<SideModel>::empty());
        }
    }
}

proof fn lemma_versions_over_runs(lines: Seq<ParsedLine>, start: int, mid: int, end: int, k: int)
    requires
        0 <= start <= k <= mid <= end <= lines.len(),
        forall|q: int| start <= q < mid ==> #[trigger] lines[q] is Deleted,
        forall|q: int| mid <= q < end ==> #[trigger] lines[q] is Added,
    ensures
        old_version(lines, k) == deleted_sides(lines, k, mid - k) + old_version(lines, end),
        new_version(lines, k) == new_version(lines, mid),
    decreases mid - k,
{
    if k == mid {
        lemma_added_run_versions(lines, mid, end);
        assert(deleted_sides(lines, k, 0) =~= Seq::<SideModel>::empty());
        assert(deleted_sides(lines, k, 0) + old_version(lines, end) =~= old_version(lines, end));
    } else {
        lemma_versions_over_runs(lines, start, mid, end, k + 1);
        assert(deleted_sides(lines, k, mid - k) =~= seq![deleted_side(lines[k])] + deleted_sides(
            lines,
            k + 1,
            mid - k - 1,
        ));
        assert(new_part(lines[k]) =~= Seq::<SideModel>::empty());
        assert(new_version(lines, k) =~= new_version(lines, k + 1));
    }
}

proof fn lemma_added_run_versions(lines: Seq<ParsedLine>, mid: int, end: int)
    requires
        0 <= mid <= end <= lines.len(),
        forall|q: int| mid <= q < end ==> #[trigger] lines[q] is Added,
    ensures
        old_version(lines, mid) == old_version(lines, end),
        new_version(lines, mid) == added_sides(lines, mid, end - mid) + new_version(lines, end),
    decreases end - mid,
{
    if mid == end {
        assert(added_sides(lines, mid, 0) + new_version(lines, end) =~= new_version(lines, end));
    } else {
        lemma_added_run_versions(lines, mid + 1, end);
        assert(old_part(lines[mid]) =~= Seq::<SideModel>::empty());
        assert(old_version(lines, mid) =~= old_version(lines, mid + 1));
        assert(added_sides(lines, mid, end - mid) =~= seq![added_side(lines[mid])] + added_sides(
            lines,
            mid + 1,
            end - mid - 1,
        ));
    }
}

/// The left column of the rows from `i` on is the old version of the lines
/// from `i` on, and the right column the new version.
pub proof fn lemma_rows_at_columns(lines: Seq<ParsedLine>, i: int, first: bool)
    requires
        0 <= i,
    ensures
        left_column(rows_at(lines, i, first)) == old_version(lines, i),
        right_column(rows_at(lines, i, first)) == new_version(lines, i),
    decreases lines.len() - i,
{
    if i >= lines.len() {
        assert(rows_at(lines, i, first) =~= Seq::<RowModel>::empty());
    } else {
        lemma_rows_at_step(lines, i, first);
        match lines[i] {
            ParsedLine::HunkStart => {
                lemma_rows_at_columns(lines, i + 1, false);
                let head: Seq<RowModel> = if first {
                    Seq::empty()
                } else {
                    seq![RowModel::HunkSeparator]
                };
                lemma_columns_concat(head, rows_at(lines, i + 1, false));
                assert(left_column(head) =~= Seq::<SideModel>::empty()) by {
                    assert(left_column(Seq::<RowModel>::empty()) =~= Seq::<SideModel>::empty());
                    assert(left_of(RowModel::HunkSeparator) =~= Seq::<SideModel>::empty());
                    if !first {
                        assert(head.drop_last() =~= Seq::<RowModel>::empty());
                        assert(head.last() == RowModel::HunkSeparator);
                    }
                }
                assert(right_column(head) =~= Seq::<SideModel>::empty()) by {
                    assert(right_column(Seq::<RowModel>::empty()) =~= Seq::<SideModel>::empty());
                    assert(right_of(RowModel::HunkSeparator) =~= Seq::<SideModel>::empty());
                    if !first {
                        assert(head.drop_last() =~= Seq::<RowModel>::empty());
                        assert(head.last() == RowModel::HunkSeparator);
                    }
                }
                assert(old_version(lines, i) =~= old_version(lines, i + 1));
                assert(new_version(lines, i) =~= new_version(lines, i + 1));
            },
            ParsedLine::Deleted { .. } => {
                lemma_run_ends(lines, i + 1);
                let mid = deleted_run_end(lines, i);
                lemma_run_ends(lines, mid);
                let end = added_run_end(lines, mid);
                lemma_rows_at_columns(lines, end, first);
                let p = paired_rows(lines, i, mid, end);
                lemma_columns_concat(p, rows_at(lines, end, first));
                lemma_paired_columns_prefix(lines, i, mid, end, p.len() as int);
                assert(p.take(p.len() as int) == p);
                lemma_versions_over_runs(lines, i, mid, end, i);
                lemma_added_run_versions(lines, mid, end);
            },
            _ => {
                lemma_rows_at_columns(lines, i + 1, first);
                let head = rows_at(lines, i, first).take(1);
                let tail = rows_at(lines, i + 1, first);
                assert(rows_at(lines, i, first) == head + tail);
                lemma_columns_concat(head, tail);
                assert(head.drop_last() =~= Seq::<RowModel>::empty());
                assert(head.last() == head[0]);
                assert(left_column(Seq::<RowModel>::empty()) =~= Seq::<SideModel>::empty());
                assert(right_column(Seq::<RowModel>::empty()) =~= Seq::<SideModel>::empty());
                assert(left_column(head) =~= left_of(head[0]));
                assert(right_column(head) =~= right_of(head[0]));
                assert(left_of(head[0]) =~= old_part(lines[i]));
                assert(right_of(head[0]) =~= new_part(lines[i]));
            },
        }
    }
}

/// The side-by-side view loses and invents no line: its left column lists,
/// top to bottom, exactly the context and deleted lines of the diff with
/// their old line numbers, and its right column exactly the context and
/// added lines with their new line numbers.
pub proof fn lemma_side_by_side_columns(input: Seq<char>)
    ensures
        left_column(side_by_side(input)) == old_version(parsed_lines(input), 0),
        right_column(side_by_side(input)) == new_version(parsed_lines(input), 0),
{
    lemma_rows_at_columns(parsed_lines(input), 0, true);
}

// ---------------------------------------------------------------------------
// What the columns show of the diff's own lines
// ---------------------------------------------------------------------------

/// Some line among `ls` is a hunk header.
pub open spec fn has_header(ls: Seq<Seq<char>>) -> bool {
    exists|j: int| 0 <= j < ls.len() && (#[trigger] hunk_header(ls[j])) is Some
}

/// The text of a side and whether it is a context, deleted or added line.
pub open spec fn text_and_kind(s: SideModel) -> (Seq<char>, RowKind) {
    (s.content, s.kind)
}

/// The old version as the diff's lines `ls` write it: after the first hunk
/// header, every line that begins with a space (a context line) or with
/// `-` (a deleted line), as the rest of the line after that character,
/// unchanged.
pub open spec fn old_lines(ls: Seq<Seq<char>>) -> Seq<(Seq<char>, RowKind)>
    decreases ls.len(),
{
    if ls.len() == 0 {
        Seq::empty()
    } else {
        let prev = ls.drop_last();
        let l = ls.last();
        old_lines(prev) + if has_header(prev) && l.len() > 0 && l[0] == ' ' {
            seq![(l.drop_first(), RowKind::Context)]
        } else if has_header(prev) && l.len() > 0 && l[0] == '-' {
            seq![(l.drop_first(), RowKind::Deleted)]
        } else {
            Seq::empty()
        }
    }
}

/// The new version as the diff's lines `ls` write it: after the first hunk
/// header, every line that begins with a space (a context line) or with
/// `+` (an added line), as the rest of the line after that character,
/// unchanged.
pub open spec fn new_lines(ls: Seq<Seq<char>>) -> Seq<(Seq<char>, RowKind)>
    decreases ls.len(),
{
    if ls.len() == 0 {
        Seq::empty()
    } else {
        let prev = ls.drop_last();
        let l = ls.last();
        new_lines(prev) + if has_header(prev) && l.len() > 0 && l[0] == ' ' {
            seq![(l.drop_first(), RowKind::Context)]
        } else if has_header(prev) && l.len() > 0 && l[0] == '+' {
            seq![(l.drop_first(), RowKind::Added)]
        } else {
            Seq::empty()
        }
    }
}

proof fn lemma_versions_push(lines: Seq<ParsedLine>, x: ParsedLine, i: int)
    requires
        0 <= i <= lines.len(),
    ensures
        old_version(lines.push(x), i) == old_version(lines, i) + old_part(x),
        new_version(lines.push(x), i) == new_version(lines, i) + new_part(x),
    decreases lines.len() - i,
{
    let p = lines.push(x);
    if i < lines.len() {
        lemma_versions_push(lines, x, i + 1);
        assert(p[i] == lines[i]);
        assert(old_part(lines[i]) + (old_version(lines, i + 1) + old_part(x)) =~= (old_part(lines[i])
            + old_version(lines, i + 1)) + old_part(x));
        assert(new_part(lines[i]) + (new_version(lines, i + 1) + new_part(x)) =~= (new_part(lines[i])
            + new_version(lines, i + 1)) + new_part(x));
    } else {
        assert(p[i] == x);
        assert(old_version(p, i + 1) =~= Seq::<SideModel>::empty());
        assert(new_version(p, i + 1) =~= Seq::<SideModel>::empty());
        assert(old_version(lines, i) =~= Seq::<SideModel>::empty());
        assert(new_version(lines, i) =~= Seq::<SideModel>::empty());
        assert(old_part(x) + Seq::<SideModel>::empty() =~= Seq::<SideModel>::empty() + old_part(x));
        assert(new_part(x) + Seq::<SideModel>::empty() =~= Seq::<SideModel>::empty() + new_part(x));
    }
}

proof fn lemma_scan_texts(ls: Seq<Seq<char>>)
    ensures
        scan_lines(ls).in_hunk == has_header(ls),
        old_version(scan_lines(ls).lines, 0).map_values(|s: SideModel| text_and_kind(s))
            == old_lines(ls),
        new_version(scan_lines(ls).lines, 0).map_values(|s: SideModel| text_and_kind(s))
            == new_lines(ls),
    decreases ls.len(),
{
    if ls.len() == 0 {
        assert(old_version(Seq::<ParsedLine>::empty(), 0) =~= Seq::<SideModel>::empty());
        assert(new_version(Seq::<ParsedLine>::empty(), 0) =~= Seq::<SideModel>::empty());
        assert(old_version(scan_lines(ls).lines, 0).map_values(|s: SideModel| text_and_kind(s))
            =~= Seq::<(Seq<char>, RowKind)>::empty());
        assert(new_version(scan_lines(ls).lines, 0).map_values(|s: SideModel| text_and_kind(s))
            =~= Seq::<(Seq<char>, RowKind)>::empty());
    } else {
        let prev = ls.drop_last();
        let l = ls.last();
        lemma_scan_texts(prev);
        let st = scan_lines(prev);
        let st2 = scan_lines(ls);
        assert(st2 == scan_line(st, l));
        // Whether a header has been seen.
        assert(has_header(ls) == (has_header(prev) || hunk_header(l) is Some)) by {
            if has_header(prev) {
                let j = choose|j: int| 0 <= j < prev.len() && (#[trigger] hunk_header(prev[j])) is Some;
                assert(ls[j] == prev[j]);
            }
            if hunk_header(l) is Some {
                assert(ls[ls.len() - 1] == l);
            }
            if has_header(ls) {
                let j = choose|j: int| 0 <= j < ls.len() && (#[trigger] hunk_header(ls[j])) is Some;
                if j < prev.len() {
                    assert(prev[j] == ls[j]);
                }
            }
        }
        let ov = old_version(st.lines, 0);
        let nv = new_version(st.lines, 0);
        let f = |s: SideModel| text_and_kind(s);
        if hunk_header(l) is Some {
            assert(l[0] == '@');
        }
        // The lines read grow by at most one line, whose parts are added.
        if st2.lines != st.lines {
            let x = st2.lines.last();
            assert(st2.lines == st.lines.push(x));
            lemma_versions_push(st.lines, x, 0);
            assert((ov + old_part(x)).map_values(f) =~= ov.map_values(f) + old_part(x).map_values(f));
            assert((nv + new_part(x)).map_values(f) =~= nv.map_values(f) + new_part(x).map_values(f));
            if hunk_header(l) is None {
                assert(l.len() > 0);
            }
            assert(old_part(x).map_values(f) =~= (if has_header(prev) && l.len() > 0 && l[0] == ' ' {
                seq![(l.drop_first(), RowKind::Context)]
            } else if has_header(prev) && l.len() > 0 && l[0] == '-' {
                seq![(l.drop_first(), RowKind::Deleted)]
            } else {
                Seq::empty()
            }));
            assert(new_part(x).map_values(f) =~= (if has_header(prev) && l.len() > 0 && l[0] == ' ' {
                seq![(l.drop_first(), RowKind::Context)]
            } else if has_header(prev) && l.len() > 0 && l[0] == '+' {
                seq![(l.drop_first(), RowKind::Added)]
            } else {
                Seq::empty()
            }));
        } else {
            assert(!(has_header(prev) && l.len() > 0 && (l[0] == ' ' || l[0] == '-' || l[0]
                == '+')));
            assert(old_lines(ls) =~= old_lines(prev) + Seq::<(Seq<char>, RowKind)>::empty());
            assert(new_lines(ls) =~= new_lines(prev) + Seq::<(Seq<char>, RowKind)>::empty());
        }
    }
}

/// The columns show the diff's own lines, text unchanged: the left column,
/// top to bottom, holds exactly the context and deleted lines after the
/// first hunk header, each as the line without its leading ` ` or `-` and
/// marked as context or deleted; the right column likewise holds the
/// context and added lines without their leading ` ` or `+`.
pub proof fn lemma_columns_keep_line_text(input: Seq<char>)
    ensures
        left_column(side_by_side(input)).map_values(|s: SideModel| text_and_kind(s)) == old_lines(
            lines_of(input),
        ),
        right_column(side_by_side(input)).map_values(|s: SideModel| text_and_kind(s)) == new_lines(
            lines_of(input),
        ),
{
    lemma_side_by_side_columns(input);
    lemma_scan_texts(lines_of(input));
}

/// The old line number that the next context or deleted line of `ls` gets:
/// the old start of the last hunk header, counted on by one for each
/// context or deleted line after it.
pub open spec fn old_next_number(ls: Seq<Seq<char>>) -> int
    decreases ls.len(),
{
    if ls.len() == 0 {
        0
    } else {
        let prev = ls.drop_last();
        let l = ls.last();
        match hunk_header(l) {
            Some((o, _)) => o as int,
            None => old_next_number(prev) + if has_header(prev) && l.len() > 0 && (l[0] == ' '
                || l[0] == '-') {
                1int
            } else {
                0int
            },
        }
    }
}

/// The new line number that the next context or added line of `ls` gets:
/// the new start of the last hunk header, counted on by one for each
/// context or added line after it.
pub open spec fn new_next_number(ls: Seq<Seq<char>>) -> int
    decreases ls.len(),
{
    if ls.len() == 0 {
        0
    } else {
        let prev = ls.drop_last();
        let l = ls.last();
        match hunk_header(l) {
            Some((_, n)) => n as int,
            None => new_next_number(prev) + if has_header(prev) && l.len() > 0 && (l[0] == ' '
                || l[0] == '+') {
                1int
            } else {
                0int
            },
        }
    }
}

/// The old line numbers of the context and deleted lines of `ls`, in order.
pub open spec fn old_numbers(ls: Seq<Seq<char>>) -> Seq<int>
    decreases ls.len(),
{
    if ls.len() == 0 {
        Seq::empty()
    } else {
        let prev = ls.drop_last();
        let l = ls.last();
        old_numbers(prev) + if has_header(prev) && l.len() > 0 && (l[0] == ' ' || l[0] == '-') {
            seq![old_next_number(prev)]
        } else {
            Seq::empty()
        }
    }
}

/// The new line numbers of the context and added lines of `ls`, in order.
pub open spec fn new_numbers(ls: Seq<Seq<char>>) -> Seq<int>
    decreases ls.len(),
{
    if ls.len() == 0 {
        Seq::empty()
    } else {
        let prev = ls.drop_last();
        let l = ls.last();
        new_numbers(prev) + if has_header(prev) && l.len() > 0 && (l[0] == ' ' || l[0] == '+') {
            seq![new_next_number(prev)]
        } else {
            Seq::empty()
        }
    }
}

/// A side's line number as an integer.
pub open spec fn lineno_of(s: SideModel) -> int {
    s.lineno as int
}

proof fn lemma_scan_numbers(ls: Seq<Seq<char>>)
    ensures
        scan_lines(ls).in_hunk == has_header(ls),
        scan_lines(ls).old_next == old_next_number(ls),
        scan_lines(ls).new_next == new_next_number(ls),
        scan_lines(ls).fits ==> scan_lines(ls).old_next <= usize::MAX && scan_lines(ls).new_next
            <= usize::MAX,
        scan_lines(ls).fits ==> old_version(scan_lines(ls).lines, 0).map_values(
            |s: SideModel| lineno_of(s),
        ) == old_numbers(ls),
        scan_lines(ls).fits ==> new_version(scan_lines(ls).lines, 0).map_values(
            |s: SideModel| lineno_of(s),
        ) == new_numbers(ls),
    decreases ls.len(),
{
    lemma_scan_texts(ls);
    if ls.len() == 0 {
        assert(old_version(Seq::<ParsedLine>::empty(), 0) =~= Seq::<SideModel>::empty());
        assert(new_version(Seq::<ParsedLine>::empty(), 0) =~= Seq::<SideModel>::empty());
        assert(old_version(scan_lines(ls).lines, 0).map_values(|s: SideModel| lineno_of(s))
            =~= Seq::<int>::empty());
        assert(new_version(scan_lines(ls).lines, 0).map_values(|s: SideModel| lineno_of(s))
            =~= Seq::<int>::empty());
    } else {
        let prev = ls.drop_last();
        let l = ls.last();
        lemma_scan_numbers(prev);
        lemma_scan_texts(prev);
        let st = scan_lines(prev);
        let st2 = scan_lines(ls);
        assert(st2 == scan_line(st, l));
        assert(has_header(ls) == (has_header(prev) || hunk_header(l) is Some)) by {
            if has_header(prev) {
                let j = choose|j: int| 0 <= j < prev.len() && (#[trigger] hunk_header(prev[j])) is Some;
                assert(ls[j] == prev[j]);
            }
            if hunk_header(l) is Some {
                assert(ls[ls.len() - 1] == l);
            }
            if has_header(ls) {
                let j = choose|j: int| 0 <= j < ls.len() && (#[trigger] hunk_header(ls[j])) is Some;
                if j < prev.len() {
                    assert(prev[j] == ls[j]);
                }
            }
        }
        if hunk_header(l) is Some {
            assert(l[0] == '@');
        }
        let f = |s: SideModel| lineno_of(s);
        if st2.fits {
            assert(st.fits);
            let ov = old_version(st.lines, 0);
            let nv = new_version(st.lines, 0);
            if st2.lines != st.lines {
                let x = st2.lines.last();
                assert(st2.lines == st.lines.push(x));
                lemma_versions_push(st.lines, x, 0);
                assert((ov + old_part(x)).map_values(f) =~= ov.map_values(f) + old_part(
                    x,
                ).map_values(f));
                assert((nv + new_part(x)).map_values(f) =~= nv.map_values(f) + new_part(
                    x,
                ).map_values(f));
                assert(old_part(x).map_values(f) =~= (if has_header(prev) && l.len() > 0 && (l[0]
                    == ' ' || l[0] == '-') {
                    seq![old_next_number(prev)]
                } else {
                    Seq::<int>::empty()
                }));
                assert(new_part(x).map_values(f) =~= (if has_header(prev) && l.len() > 0 && (l[0]
                    == ' ' || l[0] == '+') {
                    seq![new_next_number(prev)]
                } else {
                    Seq::<int>::empty()
                }));
            } else {
                assert(!(has_header(prev) && l.len() > 0 && (l[0] == ' ' || l[0] == '-' || l[0]
                    == '+')));
                assert(old_numbers(ls) =~= old_numbers(prev) + Seq::<int>::empty());
                assert(new_numbers(ls) =~= new_numbers(prev) + Seq::<int>::empty());
            }
        }
    }
}

/// The columns number the lines as the hunk headers say: while every line
/// number fits in a `usize`, the left column's line numbers are, in order,
/// each hunk's old start counted on through its context and deleted
/// lines, and the right column's each hunk's new start counted on through
/// its context and added lines.
pub proof fn lemma_columns_number_lines(input: Seq<char>)
    requires
        linenos_fit(input),
    ensures
        left_column(side_by_side(input)).map_values(|s: SideModel| lineno_of(s)) == old_numbers(
            lines_of(input),
        ),
        right_column(side_by_side(input)).map_values(|s: SideModel| lineno_of(s)) == new_numbers(
            lines_of(input),
        ),
{
    lemma_side_by_side_columns(input);
    lemma_scan_numbers(lines_of(input));
}

/// How many lines of `ls` are hunk headers.
pub open spec fn header_count(ls: Seq<Seq<char>>) -> nat
    decreases ls.len(),
{
    if ls.len() == 0 {
        0
    } else {
        header_count(ls.drop_last()) + if hunk_header(ls.last()) is Some {
            1nat
        } else {
            0nat
        }
    }
}

proof fn lemma_hunk_count_push(lines: Seq<ParsedLine>, x: ParsedLine, i: int)
    requires
        0 <= i <= lines.len(),
    ensures
        hunk_count(lines.push(x), i) == hunk_count(lines, i) + if x is HunkStart {
            1nat
        } else {
            0nat
        },
    decreases lines.len() - i,
{
    let p = lines.push(x);
    if i < lines.len() {
        lemma_hunk_count_push(lines, x, i + 1);
        assert(p[i] == lines[i]);
    } else {
        assert(p[i] == x);
        assert(hunk_count(p, i + 1) == 0);
    }
}

proof fn lemma_scan_hunks(ls: Seq<Seq<char>>)
    ensures
        hunk_count(scan_lines(ls).lines, 0) == header_count(ls),
    decreases ls.len(),
{
    if ls.len() > 0 {
        let prev = ls.drop_last();
        lemma_scan_hunks(prev);
        let st = scan_lines(prev);
        let st2 = scan_lines(ls);
        assert(st2 == scan_line(st, ls.last()));
        if st2.lines != st.lines {
            lemma_hunk_count_push(st.lines, st2.lines.last(), 0);
            assert(st2.lines == st.lines.push(st2.lines.last()));
        }
    } else {
        assert(hunk_count(Seq::<ParsedLine>::empty(), 0) == 0);
    }
}

/// Hunks are set apart by separators: the rows hold one separator fewer
/// than the diff has hunk headers (none when it has none).
pub proof fn lemma_separators_between_hunks(input: Seq<char>)
    ensures
        separator_count(side_by_side(input)) == (if header_count(lines_of(input)) > 0 {
            (header_count(lines_of(input)) - 1) as nat
        } else {
            0
        }),
{
    lemma_side_by_side_shape(input);
    lemma_scan_hunks(lines_of(input));
}

/// A row with a left side and no right side.
pub open spec fn left_only(r: RowModel) -> bool {
    r matches RowModel::Line { left: Some(_), right: None }
}

/// A row with a right side and no left side.
pub open spec fn right_only(r: RowModel) -> bool {
    r matches RowModel::Line { left: None, right: Some(_) }
}

/// No row that shows only a left side is directly followed by one that
/// shows only a right side: such a pair would be a deletion and an addition
/// left unpaired.
pub open spec fn changes_paired(rows: Seq<RowModel>) -> bool {
    forall|k: int|
        #![trigger rows[k]]
        0 <= k && k + 1 < rows.len() ==> !(left_only(rows[k]) && right_only(rows[k + 1]))
}

proof fn lemma_changes_paired_concat(a: Seq<RowModel>, b: Seq<RowModel>)
    requires
        changes_paired(a),
        changes_paired(b),
        a.len() > 0 && b.len() > 0 ==> !(left_only(a.last()) && right_only(b[0])),
    ensures
        changes_paired(a + b),
{
    let c = a + b;
    assert forall|k: int| 0 <= k && k + 1 < c.len() implies !(left_only(#[trigger] c[k])
        && right_only(c[k + 1])) by {
        if k + 1 < a.len() {
            assert(c[k] == a[k] && c[k + 1] == a[k + 1]);
        } else if k + 1 == a.len() {
            assert(c[k] == a.last() && c[k + 1] == b[0]);
        } else {
            assert(c[k] == b[k - a.len()] && c[k + 1] == b[k + 1 - a.len()]);
        }
    }
}

proof fn lemma_added_run_stops(lines: Seq<ParsedLine>, i: int)
    requires
        0 <= i <= lines.len(),
    ensures
        added_run_end(lines, i) < lines.len() ==> !(lines[added_run_end(lines, i)] is Added),
    decreases lines.len() - i,
{
    if i < lines.len() && lines[i] is Added {
        lemma_added_run_stops(lines, i + 1);
    }
}

proof fn lemma_rows_at_paired(lines: Seq<ParsedLine>, i: int)
    requires
        0 <= i <= lines.len(),
    ensures
        changes_paired(rows_at(lines, i, false)),
        rows_at(lines, i, false).len() > 0 && right_only(rows_at(lines, i, false)[0]) ==> i
            < lines.len() && lines[i] is Added,
    decreases lines.len() - i,
{
    if i < lines.len() {
        match lines[i] {
            ParsedLine::Deleted { .. } => {
                lemma_run_ends(lines, i + 1);
                lemma_run_ends(lines, deleted_run_end(lines, i));
                let mid = deleted_run_end(lines, i);
                let end = added_run_end(lines, mid);
                let p = paired_rows(lines, i, mid, end);
                lemma_rows_at_paired(lines, end);
                let rest = rows_at(lines, end, false);
                let nd = mid - i;
                let na = end - mid;
                assert(nd >= 1);
                assert forall|k: int| 0 <= k && k + 1 < p.len() implies !(left_only(#[trigger] p[k])
                    && right_only(p[k + 1])) by {
                    if left_only(p[k]) {
                        assert(k >= na);
                    }
                    if right_only(p[k + 1]) {
                        assert(k + 1 >= nd && k + 1 < na);
                    }
                }
                if p.len() > 0 && rest.len() > 0 && left_only(p.last()) && right_only(rest[0]) {
                    assert(end < lines.len() && lines[end] is Added);
                    lemma_added_run_stops(lines, mid);
                    assert(false);
                }
                lemma_changes_paired_concat(p, rest);
                assert(!right_only(p[0]));
                assert((p + rest)[0] == p[0]);
            },
            ParsedLine::HunkStart => {
                lemma_rows_at_paired(lines, i + 1);
                lemma_changes_paired_concat(
                    seq![RowModel::HunkSeparator],
                    rows_at(lines, i + 1, false),
                );
            },
            ParsedLine::Context { content, old_lineno, new_lineno } => {
                lemma_rows_at_paired(lines, i + 1);
                let row = RowModel::Line {
                    left: Some(SideModel { lineno: old_lineno, content, kind: RowKind::Context }),
                    right: Some(SideModel { lineno: new_lineno, content, kind: RowKind::Context }),
                };
                lemma_changes_paired_concat(seq![row], rows_at(lines, i + 1, false));
            },
            ParsedLine::Added { content, new_lineno } => {
                lemma_rows_at_paired(lines, i + 1);
                let row = RowModel::Line {
                    left: None,
                    right: Some(SideModel { lineno: new_lineno, content, kind: RowKind::Added }),
                };
                lemma_changes_paired_concat(seq![row], rows_at(lines, i + 1, false));
            },
        }
    }
}

proof fn lemma_scan_starts_with_hunk(ls: Seq<Seq<char>>)
    ensures
        scan_lines(ls).in_hunk <==> scan_lines(ls).lines.len() > 0,
        scan_lines(ls).lines.len() > 0 ==> scan_lines(ls).lines[0] is HunkStart,
    decreases ls.len(),
{
    if ls.len() > 0 {
        let prev = ls.drop_last();
        lemma_scan_starts_with_hunk(prev);
        let st = scan_lines(prev);
        let st2 = scan_lines(ls);
        assert(st2 == scan_line(st, ls.last()));
        if st2.lines != st.lines && st.lines.len() > 0 {
            assert(st2.lines[0] == st.lines[0]);
        }
    }
}

/// Deletions are paired with the additions that follow them: no row that
/// shows only a deleted line is directly followed by a row that shows only
/// an added line.
pub proof fn lemma_deletions_paired_with_additions(input: Seq<char>)
    ensures
        changes_paired(side_by_side(input)),
{
    let lines = parsed_lines(input);
    lemma_scan_starts_with_hunk(lines_of(input));
    if lines.len() > 0 {
        lemma_rows_at_paired(lines, 1);
        assert(rows_at(lines, 0, true) =~= Seq::<RowModel>::empty() + rows_at(lines, 1, false));
    }
}

// ---------------------------------------------------------------------------
// The largest line number
// ---------------------------------------------------------------------------

/// The larger of two numbers.
pub open spec fn max_nat(a: nat, b: nat) -> nat {
    if a >= b {
        a
    } else {
        b
    }
}

/// The line number an optional side shows, 0 for a blank.
pub open spec fn side_lineno(side: Option<SideModel>) -> nat {
    match side {
        Some(s) => s.lineno as nat,
        None => 0,
    }
}

/// The largest line number a row shows, 0 for a separator.
pub open spec fn row_max_lineno(r: RowModel) -> nat {
    match r {
        RowModel::Line { left, right } => max_nat(side_lineno(left), side_lineno(right)),
        RowModel::HunkSeparator => 0,
    }
}

/// The largest line number among `rows`, 0 when there is none.
pub open spec fn max_lineno_of(rows: Seq<RowModel>) -> nat
    decreases rows.len(),
{
    if rows.len() == 0 {
        0
    } else {
        max_nat(max_lineno_of(rows.drop_last()), row_max_lineno(rows.last()))
    }
}

fn side_lineno_exec(side: &Option<SideContent>) -> (n: usize)
    ensures
        n == side_lineno(side_view(*side)),
{
    match side {
        Some(c) => c.lineno,
        None => 0,
    }
}

impl SideBySideDiff {
    /// The largest line number the diff shows, which sizes the gutters.
    pub fn max_lineno(&self) -> (m: usize)
        ensures
            m == max_lineno_of(self@),
    {
        let mut m: usize = 0;
        let mut i: usize = 0;
        assert(self@.take(0) =~= Seq::<RowModel>::empty());
        while i < self.rows.len()
            invariant
                i <= self.rows.len(),
                m == max_lineno_of(self@.take(i as int)),
            decreases self.rows.len() - i,
        {
            let r = match &self.rows[i] {
                SideBySideRow::Line { left, right } => {
                    let l = side_lineno_exec(left);
                    let rt = side_lineno_exec(right);
                    if l >= rt {
                        l
                    } else {
                        rt
                    }
                },
                SideBySideRow::HunkSeparator => 0,
            };
            proof {
                assert(self@.take(i + 1).drop_last() == self@.take(i as int));
                assert(self@.take(i + 1).last() == self.rows@[i as int]@);
            }
            if r > m {
                m = r;
            }
            i += 1;
        }
        assert(self@.take(self.rows.len() as int) == self@);
        m
    }
}


/// The largest line number bounds both gutters: no line number that the
/// rows show, in the left column or the right one, is larger, and it is
/// one of those numbers (or 0 when the rows show none).
pub proof fn lemma_max_lineno_bounds(rows: Seq<RowModel>)
    ensures
        forall|j: int|
            0 <= j < left_column(rows).len() ==> #[trigger] left_column(rows)[j].lineno
                <= max_lineno_of(rows),
        forall|j: int|
            0 <= j < right_column(rows).len() ==> #[trigger] right_column(rows)[j].lineno
                <= max_lineno_of(rows),
        max_lineno_of(rows) == 0 || (exists|j: int|
            0 <= j < left_column(rows).len() && #[trigger] left_column(rows)[j].lineno
                == max_lineno_of(rows)) || (exists|j: int|
            0 <= j < right_column(rows).len() && #[trigger] right_column(rows)[j].lineno
                == max_lineno_of(rows)),
    decreases rows.len(),
{
    if rows.len() > 0 {
        let prev = rows.drop_last();
        let last = rows.last();
        lemma_max_lineno_bounds(prev);
        let lp = left_column(prev);
        let rp = right_column(prev);
        let l = left_column(rows);
        let r = right_column(rows);
        let m = max_lineno_of(rows);
        assert(l == lp + left_of(last));
        assert(r == rp + right_of(last));
        assert forall|j: int| 0 <= j < l.len() implies #[trigger] l[j].lineno <= m by {
            if j < lp.len() {
                assert(l[j] == lp[j]);
            } else {
                assert(l[j] == left_of(last)[j - lp.len()]);
            }
        }
        assert forall|j: int| 0 <= j < r.len() implies #[trigger] r[j].lineno <= m by {
            if j < rp.len() {
                assert(r[j] == rp[j]);
            } else {
                assert(r[j] == right_of(last)[j - rp.len()]);
            }
        }
        if m != 0 {
            if m == max_lineno_of(prev) {
                if exists|j: int| 0 <= j < lp.len() && #[trigger] lp[j].lineno == m {
                    let j = choose|j: int| 0 <= j < lp.len() && #[trigger] lp[j].lineno == m;
                    assert(l[j] == lp[j]);
                } else {
                    let j = choose|j: int| 0 <= j < rp.len() && #[trigger] rp[j].lineno == m;
                    assert(r[j] == rp[j]);
                }
            } else {
                match last {
                    RowModel::Line { left, right } => {
                        if m == side_lineno(left) {
                            assert(l[lp.len() as int] == left->0);
                        } else {
                            assert(r[rp.len() as int] == right->0);
                        }
                    },
                    RowModel::HunkSeparator => {},
                }
            }
        }
    }
}

} // verus!
