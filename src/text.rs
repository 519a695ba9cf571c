//! Character-level helpers shared by the parsers and the expansion engine.
use vstd::prelude::*;

verus! {

/// The Unicode `White_Space` property.
pub open spec fn is_space(c: char) -> bool {
    ('\u{9}' <= c && c <= '\u{d}') || c == ' ' || c == '\u{85}' || c == '\u{a0}'
        || c == '\u{1680}' || ('\u{2000}' <= c && c <= '\u{200a}') || c == '\u{2028}'
        || c == '\u{2029}' || c == '\u{202f}' || c == '\u{205f}' || c == '\u{3000}'
}

pub fn space(c: char) -> (r: bool)
    ensures
        r == is_space(c),
{
    ('\u{9}' <= c && c <= '\u{d}') || c == ' ' || c == '\u{85}' || c == '\u{a0}'
        || c == '\u{1680}' || ('\u{2000}' <= c && c <= '\u{200a}') || c == '\u{2028}'
        || c == '\u{2029}' || c == '\u{202f}' || c == '\u{205f}' || c == '\u{3000}'
}

/// An ASCII letter or digit, or `_`.
pub open spec fn is_ascii_word(c: char) -> bool {
    ('a' <= c && c <= 'z') || ('A' <= c && c <= 'Z') || ('0' <= c && c <= '9') || c == '_'
}

pub fn ascii_word(c: char) -> (r: bool)
    ensures
        r == is_ascii_word(c),
{
    ('a' <= c && c <= 'z') || ('A' <= c && c <= 'Z') || ('0' <= c && c <= '9') || c == '_'
}

/// What `regex_syntax::is_word_character` says of a character: whether it
/// belongs to the Unicode class `\w`.
pub uninterp spec fn unicode_word(c: char) -> bool;

/// Relies on `regex_syntax::is_word_character`, which depends on the character
/// alone (the `unicode-perl` feature, on by default, keeps it from panicking).
#[verifier::external_body]
fn unicode_word_character(c: char) -> (r: bool)
    ensures
        r == unicode_word(c),
{
    regex_syntax::is_word_character(c)
}

/// A word character, as the regular-expression class `\w` has it: among ASCII
/// characters the letters, the digits and `_`; beyond ASCII the Unicode word
/// characters.
pub open spec fn is_word(c: char) -> bool {
    if c <= '\u{7f}' {
        is_ascii_word(c)
    } else {
        unicode_word(c)
    }
}

pub fn word(c: char) -> (r: bool)
    ensures
        r == is_word(c),
{
    if c <= '\u{7f}' {
        ascii_word(c)
    } else {
        unicode_word_character(c)
    }
}

/// Relies on `String::push`: appends one character.
#[verifier::external_body]
fn push_char(s: &mut String, c: char)
    ensures
        final(s)@ == old(s)@.push(c),
{
    s.push(c)
}

/// The characters of a string, in order.
pub fn chars_of(s: &str) -> (r: Vec<char>)
    ensures
        r@ == s@,
{
    let n = s.unicode_len();
    let mut v: Vec<char> = Vec::new();
    let mut i: usize = 0;
    while i < n
        invariant
            n == s@.len(),
            i <= n,
            v@ == s@.take(i as int),
        decreases n - i,
    {
        v.push(s.get_char(i));
        i = i + 1;
        assert(v@ =~= s@.take(i as int));
    }
    assert(v@ =~= s@);
    v
}

/// A string holding the given characters.
pub fn string_of(v: &Vec<char>) -> (r: String)
    ensures
        r@ == v@,
{
    let mut s = String::new();
    let mut i: usize = 0;
    while i < v.len()
        invariant
            i <= v@.len(),
            s@ == v@.take(i as int),
        decreases v@.len() - i,
    {
        push_char(&mut s, v[i]);
        i = i + 1;
        assert(s@ =~= v@.take(i as int));
    }
    assert(s@ =~= v@);
    s
}

/// Whether `k` holds exactly the characters of `w`.
pub fn same_text(k: &Vec<char>, w: &str) -> (r: bool)
    ensures
        r == (k@ == w@),
{
    let wc = chars_of(w);
    if k.len() != wc.len() {
        return false;
    }
    let mut i: usize = 0;
    while i < k.len()
        invariant
            k@.len() == wc@.len(),
            wc@ == w@,
            i <= k@.len(),
            forall|j: int| 0 <= j < i ==> k@[j] == wc@[j],
        decreases k@.len() - i,
    {
        if k[i] != wc[i] {
            return false;
        }
        i = i + 1;
    }
    assert(k@ =~= wc@);
    true
}

/// A line with one trailing carriage return removed.
pub open spec fn strip_cr(l: Seq<char>) -> Seq<char> {
    if l.len() > 0 && l.last() == '\r' {
        l.drop_last()
    } else {
        l
    }
}

/// The finished lines and the open line after reading `s`: a `\n` ends a line,
/// and a `\r` just before it is not part of that line.
pub open spec fn split_state(s: Seq<char>) -> (Seq<Seq<char>>, Seq<char>)
    decreases s.len(),
{
    if s.len() == 0 {
        (seq![], seq![])
    } else {
        let (done, open) = split_state(s.drop_last());
        if s.last() == '\n' {
            (done.push(strip_cr(open)), seq![])
        } else {
            (done, open.push(s.last()))
        }
    }
}

/// The lines of a text; a last line without a line ending counts when it is not empty.
pub open spec fn lines_of(s: Seq<char>) -> Seq<Seq<char>> {
    let (done, open) = split_state(s);
    if open.len() == 0 {
        done
    } else {
        done.push(open)
    }
}

/// Each line followed by `\n`, all in one text.
pub open spec fn render(lines: Seq<Seq<char>>) -> Seq<char>
    decreases lines.len(),
{
    if lines.len() == 0 {
        seq![]
    } else {
        render(lines.drop_last()) + lines.last() + seq!['\n']
    }
}

pub fn split_lines(s: &Vec<char>) -> (r: Vec<Vec<char>>)
    ensures
        r@.map_values(|l: Vec<char>| l@) == lines_of(s@),
{
    let mut done: Vec<Vec<char>> = Vec::new();
    let mut open: Vec<char> = Vec::new();
    let mut i: usize = 0;
    while i < s.len()
        invariant
            i <= s@.len(),
            (done@.map_values(|l: Vec<char>| l@), open@) == split_state(s@.take(i as int)),
        decreases s@.len() - i,
    {
        let c = s[i];
        assert(s@.take(i as int + 1).drop_last() =~= s@.take(i as int));
        if c == '\n' {
            if open.len() > 0 && open[open.len() - 1] == '\r' {
                open.pop();
            }
            done.push(open);
            open = Vec::new();
        } else {
            open.push(c);
        }
        i = i + 1;
        assert(done@.map_values(|l: Vec<char>| l@) =~= split_state(s@.take(i as int)).0);
        assert(open@ =~= split_state(s@.take(i as int)).1);
    }
    assert(s@.take(i as int) =~= s@);
    if open.len() > 0 {
        done.push(open);
    }
    assert(done@.map_values(|l: Vec<char>| l@) =~= lines_of(s@));
    done
}

pub fn render_lines(lines: &Vec<Vec<char>>) -> (r: String)
    ensures
        r@ == render(lines@.map_values(|l: Vec<char>| l@)),
{
    let mut s = String::new();
    let mut i: usize = 0;
    while i < lines.len()
        invariant
            i <= lines@.len(),
            s@ == render(lines@.map_values(|l: Vec<char>| l@).take(i as int)),
        decreases lines@.len() - i,
    {
        let line = &lines[i];
        let ghost before = s@;
        let mut j: usize = 0;
        while j < line.len()
            invariant
                j <= line@.len(),
                s@ == before + line@.take(j as int),
            decreases line@.len() - j,
        {
            push_char(&mut s, line[j]);
            j = j + 1;
            assert(s@ =~= before + line@.take(j as int));
        }
        push_char(&mut s, '\n');
        let ghost m = lines@.map_values(|l: Vec<char>| l@);
        assert(m.take(i as int + 1).drop_last() =~= m.take(i as int));
        assert(line@.take(j as int) =~= line@);
        i = i + 1;
    }
    assert(lines@.map_values(|l: Vec<char>| l@).take(i as int) =~= lines@.map_values(
        |l: Vec<char>| l@,
    ));
    s
}

} // verus!
