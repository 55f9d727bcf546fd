//! Characters of text: white space, trimming, splitting into lines, and
//! strings built from characters.
use vstd::prelude::*;

verus! {

broadcast use vstd::string::group_string_axioms;

/// Unicode's `White_Space` property, the test that `char::is_whitespace`
/// makes and by which `str::trim` and `str::split_whitespace` cut.
pub open spec fn is_white_space(c: char) -> bool {
    let u = c as u32;
    ||| 0x09 <= u <= 0x0D
    ||| u == 0x20
    ||| u == 0x85
    ||| u == 0xA0
    ||| u == 0x1680
    ||| 0x2000 <= u <= 0x200A
    ||| u == 0x2028
    ||| u == 0x2029
    ||| u == 0x202F
    ||| u == 0x205F
    ||| u == 0x3000
}

/// Whether `c` is white space in Unicode's sense.
pub fn white_space(c: char) -> (b: bool)
    ensures
        b == is_white_space(c),
{
    let u = c as u32;
    (0x09 <= u && u <= 0x0D) || u == 0x20 || u == 0x85 || u == 0xA0 || u == 0x1680 || (0x2000
        <= u && u <= 0x200A) || u == 0x2028 || u == 0x2029 || u == 0x202F || u == 0x205F || u
        == 0x3000
}

/// `s` without its leading white space.
pub open spec fn trim_start(s: Seq<char>) -> Seq<char>
    decreases s.len(),
{
    if s.len() > 0 && is_white_space(s[0]) {
        trim_start(s.drop_first())
    } else {
        s
    }
}

/// `s` without its trailing white space.
pub open spec fn trim_end(s: Seq<char>) -> Seq<char>
    decreases s.len(),
{
    if s.len() > 0 && is_white_space(s.last()) {
        trim_end(s.drop_last())
    } else {
        s
    }
}

/// `s` without white space at either end, as `str::trim` gives it.
pub open spec fn trim(s: Seq<char>) -> Seq<char> {
    trim_end(trim_start(s))
}

/// A line without the carriage return that a `\r\n` ending leaves on it.
pub open spec fn without_cr(line: Seq<char>) -> Seq<char> {
    if line.len() > 0 && line.last() == '\r' {
        line.drop_last()
    } else {
        line
    }
}

/// Scanning `s` from the left: the lines ended so far by a line feed, and
/// the characters of the line not yet ended.
pub open spec fn line_scan(s: Seq<char>) -> (Seq<Seq<char>>, Seq<char>)
    decreases s.len(),
{
    if s.len() == 0 {
        (Seq::empty(), Seq::empty())
    } else {
        let (done, cur) = line_scan(s.drop_last());
        if s.last() == '\n' {
            (done.push(without_cr(cur)), Seq::empty())
        } else {
            (done, cur.push(s.last()))
        }
    }
}

/// The lines of `s` as `str::lines` gives them: split at each line feed,
/// a carriage return before it dropped, and no empty last line after a
/// final line feed.
pub open spec fn lines_of(s: Seq<char>) -> Seq<Seq<char>> {
    let (done, cur) = line_scan(s);
    if cur.len() > 0 {
        done.push(cur)
    } else {
        done
    }
}

/// The contents of each vector of characters.
pub open spec fn char_lines(v: Seq<Vec<char>>) -> Seq<Seq<char>> {
    v.map_values(|l: Vec<char>| l@)
}

/// `String::push`: appends one character to the string.
#[verifier::external_body]
pub(crate) fn push_char(s: &mut String, c: char)
    ensures
        final(s)@ == old(s)@.push(c),
{
    s.push(c);
}

/// The characters of `s`, in order.
pub fn chars_of(s: &str) -> (chars: Vec<char>)
    ensures
        chars@ == s@,
{
    let mut chars: Vec<char> = Vec::new();
    for c in it: s.chars()
        invariant
            chars@ == it.seq().take(it.index() as int),
    {
        chars.push(c);
    }
    chars
}

/// The string made of `chars[from..to]`.
pub fn string_of(chars: &Vec<char>, from: usize, to: usize) -> (s: String)
    requires
        from <= to <= chars.len(),
    ensures
        s@ == chars@.subrange(from as int, to as int),
{
    let mut s = String::new();
    let mut i = from;
    while i < to
        invariant
            from <= i <= to <= chars.len(),
            s@ == chars@.subrange(from as int, i as int),
        decreases to - i,
    {
        push_char(&mut s, chars[i]);
        assert(chars@.subrange(from as int, i + 1) == chars@.subrange(from as int, i as int).push(
            chars@[i as int],
        ));
        i += 1;
    }
    s
}

proof fn lemma_trim_start_skip(s: Seq<char>, i: int)
    requires
        0 <= i < s.len(),
        is_white_space(s[i]),
    ensures
        trim_start(s.subrange(i, s.len() as int)) == trim_start(s.subrange(i + 1, s.len() as int)),
{
    assert(s.subrange(i, s.len() as int).drop_first() == s.subrange(i + 1, s.len() as int));
}

proof fn lemma_trim_end_skip(s: Seq<char>, j: int)
    requires
        0 < j <= s.len(),
        is_white_space(s[j - 1]),
    ensures
        trim_end(s.subrange(0, j)) == trim_end(s.subrange(0, j - 1)),
{
    assert(s.subrange(0, j).drop_last() == s.subrange(0, j - 1));
}

/// The bounds of `chars[from..to]` with white space cut from both ends.
pub fn trim_range(chars: &Vec<char>, from: usize, to: usize) -> (r: (usize, usize))
    requires
        from <= to <= chars.len(),
    ensures
        from <= r.0 <= r.1 <= to,
        chars@.subrange(r.0 as int, r.1 as int) == trim(chars@.subrange(from as int, to as int)),
{
    let ghost s = chars@.subrange(from as int, to as int);
    let mut a = from;
    while a < to && white_space(chars[a])
        invariant
            from <= a <= to <= chars.len(),
            s == chars@.subrange(from as int, to as int),
            trim_start(s) == trim_start(chars@.subrange(a as int, to as int)),
        decreases to - a,
    {
        proof {
            lemma_trim_start_skip(chars@.subrange(from as int, to as int), a - from);
            assert(s.subrange(a - from, s.len() as int) == chars@.subrange(a as int, to as int));
            assert(s.subrange(a - from + 1, s.len() as int) == chars@.subrange(
                a + 1,
                to as int,
            ));
        }
        a += 1;
    }
    let ghost t = chars@.subrange(a as int, to as int);
    assert(trim_start(s) == t) by {
        if t.len() > 0 {
            assert(t[0] == chars@[a as int]);
        }
    }
    let mut b = to;
    while b > a && white_space(chars[b - 1])
        invariant
            from <= a <= b <= to <= chars.len(),
            t == chars@.subrange(a as int, to as int),
            trim_end(t) == trim_end(chars@.subrange(a as int, b as int)),
        decreases b - a,
    {
        proof {
            let u = chars@.subrange(a as int, b as int);
            assert(u.drop_last() == chars@.subrange(a as int, b - 1));
        }
        b -= 1;
    }
    proof {
        let u = chars@.subrange(a as int, b as int);
        if u.len() > 0 {
            assert(u.last() == chars@[b - 1]);
        }
    }
    (a, b)
}

/// The lines of `chars`, as `str::lines` splits them.
pub fn split_lines(chars: &Vec<char>) -> (lines: Vec<Vec<char>>)
    ensures
        char_lines(lines@) == lines_of(chars@),
{
    let mut done: Vec<Vec<char>> = Vec::new();
    let mut cur: Vec<char> = Vec::new();
    let mut i: usize = 0;
    while i < chars.len()
        invariant
            i <= chars.len(),
            (char_lines(done@), cur@) == line_scan(chars@.take(i as int)),
        decreases chars.len() - i,
    {
        let c = chars[i];
        proof {
            assert(chars@.take(i + 1).drop_last() == chars@.take(i as int));
        }
        if c == '\n' {
            let n = cur.len();
            if n > 0 && cur[n - 1] == '\r' {
                cur.pop();
            }
            let line = cur;
            cur = Vec::new();
            let ghost before = char_lines(done@);
            done.push(line);
            assert(char_lines(done@) =~= before.push(line@));
        } else {
            cur.push(c);
        }
        i += 1;
    }
    assert(chars@.take(chars.len() as int) == chars@);
    if cur.len() > 0 {
        let ghost before = char_lines(done@);
        let last = cur;
        done.push(last);
        assert(char_lines(done@) =~= before.push(last@));
    }
    done
}

proof fn lemma_line_scan_concat(p: Seq<char>, s: Seq<char>)
    requires
        line_scan(p).1.len() == 0,
    ensures
        line_scan(p + s) == (line_scan(p).0 + line_scan(s).0, line_scan(s).1),
    decreases s.len(),
{
    if s.len() == 0 {
        assert(p + s =~= p);
        assert(line_scan(p).0 + line_scan(s).0 =~= line_scan(p).0);
        assert(line_scan(p).1 =~= Seq::<char>::empty());
    } else {
        lemma_line_scan_concat(p, s.drop_last());
        assert((p + s).drop_last() =~= p + s.drop_last());
        assert((p + s).last() == s.last());
        let (dp, _cp) = line_scan(p);
        let (ds, cs) = line_scan(s.drop_last());
        if s.last() == '\n' {
            assert((dp + ds).push(without_cr(cs)) =~= dp + ds.push(without_cr(cs)));
        }
    }
}

/// A text that is empty or ends in a line feed, followed by more text, has
/// the lines of the first and then those of the second.
pub proof fn lemma_lines_of_concat(p: Seq<char>, s: Seq<char>)
    requires
        p.len() == 0 || p.last() == '\n',
    ensures
        lines_of(p + s) == lines_of(p) + lines_of(s),
{
    if p.len() > 0 {
        assert(line_scan(p).1.len() == 0);
    }
    lemma_line_scan_concat(p, s);
    let (dp, cp) = line_scan(p);
    let (ds, cs) = line_scan(s);
    assert(cp.len() == 0);
    if cs.len() > 0 {
        assert((dp + ds).push(cs) =~= dp + ds.push(cs));
    }
}

/// A text followed by a line feed has the lines of the text, except that an
/// unfinished last line loses a carriage return at its end, and an empty
/// line stands last where the text had no unfinished line.
pub proof fn lemma_lines_of_line_feed(a: Seq<char>)
    ensures
        lines_of(a.push('\n')) == line_scan(a).0.push(without_cr(line_scan(a).1)),
        lines_of(a) == (if line_scan(a).1.len() > 0 {
            line_scan(a).0.push(line_scan(a).1)
        } else {
            line_scan(a).0
        }),
{
    assert(a.push('\n').drop_last() =~= a);
}

proof fn lemma_trim_start_drop_last(s: Seq<char>)
    requires
        s.len() > 0,
        is_white_space(s.last()),
    ensures
        trim_start(s).len() > 0 ==> trim_start(s).last() == s.last(),
        trim_start(s.drop_last()) == (if trim_start(s).len() == 0 {
            Seq::<char>::empty()
        } else {
            trim_start(s).drop_last()
        }),
    decreases s.len(),
{
    if s.len() == 1 {
        assert(s.drop_last() =~= Seq::<char>::empty());
        assert(s.drop_first() =~= Seq::<char>::empty());
    } else if is_white_space(s[0]) {
        lemma_trim_start_drop_last(s.drop_first());
        assert(s.drop_first().last() == s.last());
        assert(s.drop_last().drop_first() =~= s.drop_first().drop_last());
        assert(s.drop_last()[0] == s[0]);
    } else {
        assert(s.drop_last()[0] == s[0]);
    }
}

/// Trimming does not see the carriage return that ends a line.
pub proof fn lemma_trim_without_cr(line: Seq<char>)
    ensures
        trim(without_cr(line)) == trim(line),
{
    if line.len() > 0 && line.last() == '\r' {
        lemma_trim_start_drop_last(line);
        let t = trim_start(line);
        if t.len() > 0 {
            assert(trim_end(t) == trim_end(t.drop_last()));
        }
    }
}

} // verus!
