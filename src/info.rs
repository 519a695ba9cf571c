//! The attribute grammar of a fence's info string:
//! `<language> [{export[=<path>]}] [{name=<identifier>}] ...`.
use vstd::prelude::*;
use crate::text::{is_word, word, is_ascii_word, ascii_word, string_of, same_text};
use crate::expand::{space_end, end_of_space, slice_of};
use crate::chunk::{ChunkInfo, InfoView, opt_view};

verus! {

/// The first position at or after `i` that does not hold an identifier character.
pub open spec fn word_end(s: Seq<char>, i: int) -> int
    decreases s.len() - i,
{
    if 0 <= i < s.len() && is_word(s[i]) {
        word_end(s, i + 1)
    } else {
        i
    }
}

/// The first position at or after `i` that does not hold a key character:
/// an ASCII letter or digit, or `_`.
pub open spec fn key_end(s: Seq<char>, i: int) -> int
    decreases s.len() - i,
{
    if 0 <= i < s.len() && is_ascii_word(s[i]) {
        key_end(s, i + 1)
    } else {
        i
    }
}

/// The first position at or after `i` that holds `}`, or the length of `s`.
pub open spec fn close_pos(s: Seq<char>, i: int) -> int
    decreases s.len() - i,
{
    if 0 <= i < s.len() && s[i] != '}' {
        close_pos(s, i + 1)
    } else {
        i
    }
}

/// The language word and the attribute region of an info string: optional
/// whitespace, a word, optional whitespace, then a rest without a line break.
pub open spec fn lang_split(s: Seq<char>) -> Option<(Seq<char>, Seq<char>)> {
    let a = space_end(s, 0);
    let b = word_end(s, a);
    let c = space_end(s, b);
    if b > a && !s.skip(c).contains('\n') {
        Some((s.subrange(a, b), s.skip(c)))
    } else {
        None
    }
}

/// The attribute `{key}` or `{key=value}` that starts at position `p`, with the
/// position just after it.
pub open spec fn attr_at(t: Seq<char>, p: int) -> Option<(Seq<char>, Option<Seq<char>>, int)> {
    if 0 <= p < t.len() && t[p] == '{' {
        let k = key_end(t, p + 1);
        if k > p + 1 && k < t.len() && t[k] == '}' {
            Some((t.subrange(p + 1, k), None, k + 1))
        } else if k > p + 1 && k < t.len() && t[k] == '=' {
            let v = close_pos(t, k + 1);
            if v < t.len() && v > k + 1 {
                Some((t.subrange(p + 1, k), Some(t.subrange(k + 1, v)), v + 1))
            } else {
                None
            }
        } else {
            None
        }
    } else {
        None
    }
}

/// What parsing has gathered: the export flag, the export path and the name.
pub type Attrs = (bool, Option<Seq<char>>, Option<Seq<char>>);

/// The effect of one attribute; keys other than `export` and `name` change nothing.
pub open spec fn apply_attr(acc: Attrs, key: Seq<char>, value: Option<Seq<char>>) -> Attrs {
    if key == "export"@ {
        (true, if value is Some { value } else { acc.1 }, acc.2)
    } else if key == "name"@ && value is Some {
        (acc.0, acc.1, value)
    } else {
        acc
    }
}

/// The attributes found from position `p` on, from left to right, each one
/// searched for after the end of the one before.
pub open spec fn scan_attrs(t: Seq<char>, p: int, acc: Attrs) -> Attrs
    decreases t.len() - p,
{
    if p < 0 || p >= t.len() {
        acc
    } else {
        match attr_at(t, p) {
            Some((k, v, e)) => if e > p {
                scan_attrs(t, e, apply_attr(acc, k, v))
            } else {
                acc
            },
            None => scan_attrs(t, p + 1, acc),
        }
    }
}

/// The parsed info string, or `None` where it does not start a chunk.
pub open spec fn parse_info(s: Seq<char>) -> Option<InfoView> {
    match lang_split(s) {
        None => None,
        Some((lang, attrs)) => {
            let r = scan_attrs(attrs, 0, (false, None, None));
            if !r.0 && r.1 is None && r.2 is None {
                None
            } else {
                Some(InfoView { lang, path: r.1, name: r.2, export: r.0 })
            }
        },
    }
}

pub open spec fn info_view(o: Option<ChunkInfo>) -> Option<InfoView> {
    match o {
        Some(i) => Some(i@),
        None => None,
    }
}

fn end_of_word(s: &Vec<char>, i: usize) -> (r: usize)
    requires
        i <= s@.len(),
    ensures
        r as int == word_end(s@, i as int),
        i <= r <= s@.len(),
{
    let mut k = i;
    while k < s.len() && word(s[k])
        invariant
            i <= k <= s@.len(),
            word_end(s@, i as int) == word_end(s@, k as int),
        decreases s@.len() - k,
    {
        k = k + 1;
    }
    k
}

fn end_of_key(s: &Vec<char>, i: usize) -> (r: usize)
    requires
        i <= s@.len(),
    ensures
        r as int == key_end(s@, i as int),
        i <= r <= s@.len(),
{
    let mut k = i;
    while k < s.len() && ascii_word(s[k])
        invariant
            i <= k <= s@.len(),
            key_end(s@, i as int) == key_end(s@, k as int),
        decreases s@.len() - k,
    {
        k = k + 1;
    }
    k
}

fn find_close(s: &Vec<char>, i: usize) -> (r: usize)
    requires
        i <= s@.len(),
    ensures
        r as int == close_pos(s@, i as int),
        i <= r <= s@.len(),
{
    let mut k = i;
    while k < s.len() && s[k] != '}'
        invariant
            i <= k <= s@.len(),
            close_pos(s@, i as int) == close_pos(s@, k as int),
        decreases s@.len() - k,
    {
        k = k + 1;
    }
    k
}

fn has_newline(s: &Vec<char>, from: usize) -> (r: bool)
    requires
        from <= s@.len(),
    ensures
        r == s@.skip(from as int).contains('\n'),
{
    let mut k = from;
    while k < s.len()
        invariant
            from <= k <= s@.len(),
            forall|j: int| from <= j < k ==> s@[j] != '\n',
        decreases s@.len() - k,
    {
        if s[k] == '\n' {
            assert(s@.skip(from as int)[k - from] == '\n');
            return true;
        }
        k = k + 1;
    }
    assert forall|j: int| 0 <= j < s@.skip(from as int).len() implies s@.skip(from as int)[j]
        != '\n' by {
        assert(s@.skip(from as int)[j] == s@[from + j]);
    }
    false
}

fn attr_at_exec(t: &Vec<char>, p: usize) -> (r: Option<(Vec<char>, Option<Vec<char>>, usize)>)
    requires
        p < t@.len(),
    ensures
        match r {
            Some((k, v, e)) => attr_at(t@, p as int) == Some(
                (k@, match v { Some(x) => Some(x@), None => None }, e as int),
            ),
            None => attr_at(t@, p as int) is None,
        },
{
    let n = t.len();
    if t[p] != '{' {
        return None;
    }
    let k = end_of_key(t, p + 1);
    if k == p + 1 || k == t.len() {
        return None;
    }
    if t[k] == '}' {
        return Some((slice_of(t, p + 1, k), None, k + 1));
    }
    if t[k] != '=' {
        return None;
    }
    let v = find_close(t, k + 1);
    if v == t.len() || v == k + 1 {
        return None;
    }
    Some((slice_of(t, p + 1, k), Some(slice_of(t, k + 1, v)), v + 1))
}

/// Parses a fence's info string. `None` where it has no leading language word,
/// or where neither an `export` attribute nor a `name` with a value is present.
pub fn parse_info_string(info_string: &str) -> (r: Option<ChunkInfo>)
    ensures
        info_view(r) == parse_info(info_string@),
{
    let s = crate::text::chars_of(info_string);
    let a = end_of_space(&s, 0);
    let b = end_of_word(&s, a);
    let c = end_of_space(&s, b);
    if b == a || has_newline(&s, c) {
        return None;
    }
    let lang = string_of(&slice_of(&s, a, b));
    let t = slice_of(&s, c, s.len());
    assert(t@ =~= s@.skip(c as int));
    let mut export = false;
    let mut path: Option<Vec<char>> = None;
    let mut name: Option<Vec<char>> = None;
    let ghost init: Attrs = (false, None, None);
    let mut p: usize = 0;
    while p < t.len()
        invariant
            p <= t@.len(),
            scan_attrs(t@, 0, init) == scan_attrs(
                t@,
                p as int,
                (export, opt_chars(path), opt_chars(name)),
            ),
        decreases t@.len() - p,
    {
        match attr_at_exec(&t, p) {
            Some((k, v, e)) => {
                if same_text(&k, "export") {
                    export = true;
                    if v.is_some() {
                        path = v;
                    }
                } else if same_text(&k, "name") && v.is_some() {
                    name = v;
                }
                p = e;
            },
            None => {
                p = p + 1;
            },
        }
    }
    if !export && path.is_none() && name.is_none() {
        return None;
    }
    Some(ChunkInfo { lang, path: opt_string(&path), name: opt_string(&name), export })
}

pub open spec fn opt_chars(o: Option<Vec<char>>) -> Option<Seq<char>> {
    match o {
        Some(v) => Some(v@),
        None => None,
    }
}

fn opt_string(o: &Option<Vec<char>>) -> (r: Option<String>)
    ensures
        opt_view(r) == opt_chars(*o),
{
    match o {
        Some(v) => Some(string_of(v)),
        None => None,
    }
}

} // verus!
