//! Expansion of `<<name>>` reference lines against an index of named chunks.
use vstd::prelude::*;
use crate::text::{is_space, is_word, space, word, chars_of, string_of, lines_of, render, split_lines, render_lines};
use crate::chunk::{Chunk, ChunkView, NamedChunks, named_group, declared_names, lemma_group_declared};

verus! {

/// The first position at or after `i` that does not hold whitespace.
pub open spec fn space_end(s: Seq<char>, i: int) -> int
    decreases s.len() - i,
{
    if 0 <= i < s.len() && is_space(s[i]) {
        space_end(s, i + 1)
    } else {
        i
    }
}

/// A character that may appear in a referenced name.
pub open spec fn is_name_char(c: char) -> bool {
    is_word(c) || c == '.' || c == '-'
}

/// The first position at or after `i` that does not hold a name character.
pub open spec fn name_end(s: Seq<char>, i: int) -> int
    decreases s.len() - i,
{
    if 0 <= i < s.len() && is_name_char(s[i]) {
        name_end(s, i + 1)
    } else {
        i
    }
}

/// The indentation and the name of a reference line: optional whitespace,
/// `<<`, one or more name characters, `>>`, and nothing but whitespace after.
pub open spec fn reference_of(line: Seq<char>) -> Option<(Seq<char>, Seq<char>)> {
    let a = space_end(line, 0);
    let b = name_end(line, a + 2);
    if a + 2 <= line.len() && line[a] == '<' && line[a + 1] == '<' && b > a + 2 && b + 2
        <= line.len() && line[b] == '>' && line[b + 1] == '>' && space_end(line, b + 2)
        == line.len() {
        Some((line.take(a), line.subrange(a + 2, b)))
    } else {
        None
    }
}

/// The diagnostic left where a name is referenced inside its own expansion.
pub open spec fn circular_note(n: Seq<char>) -> Seq<char> {
    "// ERROR: Circular reference detected for chunk '"@ + n + "'"@
}

/// The diagnostic left where a name that no chunk declares is referenced.
pub open spec fn missing_note(n: Seq<char>) -> Seq<char> {
    "// ERROR: Chunk '"@ + n + "' not found"@
}

/// How many names of `names` are not on `path`.
pub open spec fn unvisited(names: Seq<Seq<char>>, path: Seq<Seq<char>>) -> nat
    decreases names.len(),
{
    if names.len() == 0 {
        0
    } else {
        unvisited(names.drop_last(), path) + if path.contains(names.last()) {
            0nat
        } else {
            1nat
        }
    }
}

pub proof fn lemma_unvisited_le(names: Seq<Seq<char>>, path: Seq<Seq<char>>, n: Seq<char>)
    ensures
        unvisited(names, path.push(n)) <= unvisited(names, path),
    decreases names.len(),
{
    if names.len() > 0 {
        lemma_unvisited_le(names.drop_last(), path, n);
        if path.contains(names.last()) {
            let k = choose|k: int| 0 <= k < path.len() && path[k] == names.last();
            assert(path.push(n)[k] == names.last());
        }
    }
}

pub proof fn lemma_unvisited_push(names: Seq<Seq<char>>, path: Seq<Seq<char>>, n: Seq<char>)
    requires
        names.contains(n),
        !path.contains(n),
    ensures
        unvisited(names, path.push(n)) < unvisited(names, path),
    decreases names.len(),
{
    lemma_unvisited_le(names.drop_last(), path, n);
    if names.last() == n {
        assert(path.push(n)[path.len() as int] == n);
    } else {
        let k = choose|k: int| 0 <= k < names.len() && names[k] == n;
        assert(names.drop_last()[k] == n);
        lemma_unvisited_push(names.drop_last(), path, n);
        if path.contains(names.last()) {
            let j = choose|j: int| 0 <= j < path.len() && path[j] == names.last();
            assert(path.push(n)[j] == names.last());
        }
    }
}

/// Every line prefixed with `ind`.
pub open spec fn indent_all(ind: Seq<char>, ls: Seq<Seq<char>>) -> Seq<Seq<char>> {
    ls.map_values(|l: Seq<char>| ind + l)
}

/// The expansion of a sequence of lines while the names on `path` are being expanded.
pub open spec fn expand_lines(cs: Seq<ChunkView>, ls: Seq<Seq<char>>, path: Seq<Seq<char>>) -> Seq<
    Seq<char>,
>
    decreases unvisited(declared_names(cs), path), 1nat, ls.len(),
{
    if ls.len() == 0 {
        seq![]
    } else {
        expand_lines(cs, ls.drop_last(), path) + expand_line(cs, ls.last(), path)
    }
}

/// The expansion of one line: a line that is no reference stays as it is.
pub open spec fn expand_line(cs: Seq<ChunkView>, line: Seq<char>, path: Seq<Seq<char>>) -> Seq<
    Seq<char>,
>
    decreases unvisited(declared_names(cs), path), 0nat, 0nat,
    via expand_line_decreases
{
    match reference_of(line) {
        None => seq![line],
        Some((ind, n)) => if path.contains(n) {
            seq![ind + circular_note(n)]
        } else {
            match named_group(cs, n) {
                None => seq![ind + missing_note(n)],
                Some(g) => expand_group(cs, g, g.len() as int, ind, path.push(n)),
            }
        },
    }
}

#[via_fn]
proof fn expand_line_decreases(cs: Seq<ChunkView>, line: Seq<char>, path: Seq<Seq<char>>) {
    if let Some((ind, n)) = reference_of(line) {
        if !path.contains(n) {
            lemma_group_declared(cs, n);
            if named_group(cs, n) is Some {
                lemma_unvisited_push(declared_names(cs), path, n);
            }
        }
    }
}

/// The first `k` chunks of a group, each expanded and indented by `ind`,
/// with one blank line between two of them.
pub open spec fn expand_group(
    cs: Seq<ChunkView>,
    g: Seq<ChunkView>,
    k: int,
    ind: Seq<char>,
    path: Seq<Seq<char>>,
) -> Seq<Seq<char>>
    decreases unvisited(declared_names(cs), path), 2nat, k,
{
    if k <= 0 {
        seq![]
    } else {
        let body = indent_all(ind, expand_lines(cs, lines_of(g[k - 1].content), path));
        if k == 1 {
            body
        } else {
            expand_group(cs, g, k - 1, ind, path).push(seq![]) + body
        }
    }
}

/// Whether expanding `ls` while the names on `path` are being expanded meets a
/// reference to a name that no chunk declares.
pub open spec fn lines_missing(cs: Seq<ChunkView>, ls: Seq<Seq<char>>, path: Seq<Seq<char>>) -> bool
    decreases unvisited(declared_names(cs), path), 1nat, ls.len(),
{
    if ls.len() == 0 {
        false
    } else {
        lines_missing(cs, ls.drop_last(), path) || line_missing(cs, ls.last(), path)
    }
}

/// Whether expanding one line meets a reference to an undeclared name.
pub open spec fn line_missing(cs: Seq<ChunkView>, line: Seq<char>, path: Seq<Seq<char>>) -> bool
    decreases unvisited(declared_names(cs), path), 0nat, 0nat,
    via line_missing_decreases
{
    match reference_of(line) {
        None => false,
        Some((ind, n)) => if path.contains(n) {
            false
        } else {
            match named_group(cs, n) {
                None => true,
                Some(g) => group_missing(cs, g, g.len() as int, path.push(n)),
            }
        },
    }
}

#[via_fn]
proof fn line_missing_decreases(cs: Seq<ChunkView>, line: Seq<char>, path: Seq<Seq<char>>) {
    if let Some((ind, n)) = reference_of(line) {
        if !path.contains(n) {
            lemma_group_declared(cs, n);
            if named_group(cs, n) is Some {
                lemma_unvisited_push(declared_names(cs), path, n);
            }
        }
    }
}

/// Whether expanding the first `k` chunks of a group meets a reference to an
/// undeclared name.
pub open spec fn group_missing(cs: Seq<ChunkView>, g: Seq<ChunkView>, k: int, path: Seq<Seq<char>>) -> bool
    decreases unvisited(declared_names(cs), path), 2nat, k,
{
    if k <= 0 {
        false
    } else {
        group_missing(cs, g, k - 1, path) || lines_missing(cs, lines_of(g[k - 1].content), path)
    }
}

/// The names being expanded when a chunk is expanded on its own: its own name, if any.
pub open spec fn start_path(c: ChunkView) -> Seq<Seq<char>> {
    match c.info.name {
        Some(n) => seq![n],
        None => seq![],
    }
}

/// Whether expanding chunk `c` leaves a diagnostic for an undeclared name.
pub open spec fn expansion_missing(cs: Seq<ChunkView>, c: ChunkView) -> bool {
    lines_missing(cs, lines_of(c.content), start_path(c))
}

/// The text that expanding chunk `c` produces, where `cs` are all the chunks.
pub open spec fn expansion(cs: Seq<ChunkView>, c: ChunkView) -> Seq<char> {
    render(expand_lines(cs, lines_of(c.content), start_path(c)))
}

pub open spec fn lines_view(v: Vec<Vec<char>>) -> Seq<Seq<char>> {
    v@.map_values(|l: Vec<char>| l@)
}

pub open spec fn path_view(v: Vec<String>) -> Seq<Seq<char>> {
    v@.map_values(|s: String| s@)
}

pub proof fn lemma_lines_push(s: Seq<Vec<char>>, x: Vec<char>)
    ensures
        s.push(x).map_values(|l: Vec<char>| l@) == s.map_values(|l: Vec<char>| l@).push(x@),
{
    assert(s.push(x).map_values(|l: Vec<char>| l@) =~= s.map_values(|l: Vec<char>| l@).push(x@));
}

pub proof fn lemma_path_push(s: Seq<String>, x: String)
    ensures
        s.push(x).map_values(|l: String| l@) == s.map_values(|l: String| l@).push(x@),
{
    assert(s.push(x).map_values(|l: String| l@) =~= s.map_values(|l: String| l@).push(x@));
}

pub(crate) fn end_of_space(s: &Vec<char>, i: usize) -> (r: usize)
    requires
        i <= s@.len(),
    ensures
        r as int == space_end(s@, i as int),
        i <= r <= s@.len(),
{
    let mut k = i;
    while k < s.len() && space(s[k])
        invariant
            i <= k <= s@.len(),
            space_end(s@, i as int) == space_end(s@, k as int),
        decreases s@.len() - k,
    {
        k = k + 1;
    }
    k
}

fn end_of_name(s: &Vec<char>, i: usize) -> (r: usize)
    requires
        i <= s@.len(),
    ensures
        r as int == name_end(s@, i as int),
        i <= r <= s@.len(),
{
    let mut k = i;
    while k < s.len() && (word(s[k]) || s[k] == '.' || s[k] == '-')
        invariant
            i <= k <= s@.len(),
            name_end(s@, i as int) == name_end(s@, k as int),
        decreases s@.len() - k,
    {
        k = k + 1;
    }
    k
}

pub(crate) fn slice_of(s: &Vec<char>, from: usize, to: usize) -> (r: Vec<char>)
    requires
        from <= to <= s@.len(),
    ensures
        r@ == s@.subrange(from as int, to as int),
{
    let mut r: Vec<char> = Vec::new();
    let mut k = from;
    while k < to
        invariant
            from <= k <= to,
            to <= s@.len(),
            r@ == s@.subrange(from as int, k as int),
        decreases to - k,
    {
        r.push(s[k]);
        k = k + 1;
        assert(r@ =~= s@.subrange(from as int, k as int));
    }
    r
}

/// Recognises a reference line, giving its indentation and the referenced name.
pub fn parse_reference(line: &Vec<char>) -> (r: Option<(Vec<char>, Vec<char>)>)
    ensures
        match r {
            Some((ind, n)) => reference_of(line@) == Some((ind@, n@)),
            None => reference_of(line@) is None,
        },
{
    let len = line.len();
    let a = end_of_space(line, 0);
    if len - a < 2 || line[a] != '<' || line[a + 1] != '<' {
        return None;
    }
    let b = end_of_name(line, a + 2);
    if b == a + 2 || len - b < 2 || line[b] != '>' || line[b + 1] != '>' {
        return None;
    }
    if end_of_space(line, b + 2) != len {
        return None;
    }
    let ind = slice_of(line, 0, a);
    assert(ind@ =~= line@.take(a as int));
    Some((ind, slice_of(line, a + 2, b)))
}

fn concat(a: &Vec<char>, b: &Vec<char>) -> (r: Vec<char>)
    ensures
        r@ == a@ + b@,
{
    let mut r = slice_of(a, 0, a.len());
    let mut k: usize = 0;
    while k < b.len()
        invariant
            k <= b@.len(),
            r@ == a@ + b@.take(k as int),
        decreases b@.len() - k,
    {
        r.push(b[k]);
        k = k + 1;
        assert(r@ =~= a@ + b@.take(k as int));
    }
    assert(a@.subrange(0, a@.len() as int) =~= a@);
    assert(b@.take(k as int) =~= b@);
    r
}

fn on_path(path: &Vec<String>, n: &String) -> (r: bool)
    ensures
        r == path_view(*path).contains(n@),
{
    let mut k: usize = 0;
    while k < path.len()
        invariant
            k <= path@.len(),
            forall|j: int| 0 <= j < k ==> path@[j]@ != n@,
        decreases path@.len() - k,
    {
        if path[k] == *n {
            assert(path_view(*path)[k as int] == n@);
            return true;
        }
        k = k + 1;
    }
    false
}

fn extended(path: &Vec<String>, n: String) -> (r: Vec<String>)
    ensures
        path_view(r) == path_view(*path).push(n@),
{
    let mut r: Vec<String> = Vec::new();
    let mut k: usize = 0;
    assert(path_view(r) =~= path_view(*path).take(0));
    while k < path.len()
        invariant
            k <= path@.len(),
            path_view(r) == path_view(*path).take(k as int),
            r@.len() == k,
        decreases path@.len() - k,
    {
        let s = path[k].clone();
        assert(s@ == path_view(*path)[k as int]);
        proof {
            lemma_path_push(r@, s);
        }
        r.push(s);
        k = k + 1;
        assert(path_view(r) =~= path_view(*path).take(k as int));
    }
    assert(path_view(*path).take(k as int) =~= path_view(*path));
    proof {
        lemma_path_push(r@, n);
    }
    r.push(n);
    r
}

/// Appends `ls`, each line prefixed with `ind`, to `out`.
fn push_indented(out: &mut Vec<Vec<char>>, ind: &Vec<char>, ls: &Vec<Vec<char>>)
    ensures
        lines_view(*final(out)) == lines_view(*old(out)) + indent_all(ind@, lines_view(*ls)),
{
    let ghost start = lines_view(*out);
    let mut k: usize = 0;
    assert(lines_view(*out) =~= start + indent_all(ind@, lines_view(*ls).take(0)));
    while k < ls.len()
        invariant
            k <= ls@.len(),
            lines_view(*out) == start + indent_all(ind@, lines_view(*ls).take(k as int)),
            out@.len() == start.len() + k,
        decreases ls@.len() - k,
    {
        let l = concat(ind, &ls[k]);
        assert(l@ == ind@ + lines_view(*ls)[k as int]);
        proof {
            lemma_lines_push(out@, l);
        }
        out.push(l);
        k = k + 1;
        assert(lines_view(*ls).take(k as int).drop_last() =~= lines_view(*ls).take(k as int - 1));
        assert(lines_view(*out) =~= start + indent_all(ind@, lines_view(*ls).take(k as int)));
    }
    assert(lines_view(*ls).take(k as int) =~= lines_view(*ls));
}

/// Expands `content` while the names on `path` are being expanded.
fn expand_text(idx: &NamedChunks, content: &String, path: &Vec<String>) -> (r: (Vec<Vec<char>>, bool))
    requires
        idx.well_formed(),
    ensures
        lines_view(r.0) == expand_lines(idx.chunks(), lines_of(content@), path_view(*path)),
        r.1 == lines_missing(idx.chunks(), lines_of(content@), path_view(*path)),
    decreases unvisited(declared_names(idx.chunks()), path_view(*path)),
{
    let text = chars_of(content.as_str());
    let ls = split_lines(&text);
    let ghost lv = lines_view(ls);
    let ghost p = path_view(*path);
    let mut out: Vec<Vec<char>> = Vec::new();
    let mut missing = false;
    let mut i: usize = 0;
    assert(lines_view(out) =~= expand_lines(idx.chunks(), lv.take(0), p));
    assert(!lines_missing(idx.chunks(), lv.take(0), p));
    while i < ls.len()
        invariant
            idx.well_formed(),
            i <= ls@.len(),
            lv == lines_view(ls),
            lv == lines_of(content@),
            p == path_view(*path),
            lines_view(out) == expand_lines(idx.chunks(), lv.take(i as int), p),
            missing == lines_missing(idx.chunks(), lv.take(i as int), p),
        decreases ls@.len() - i,
    {
        let line = &ls[i];
        assert(lv.take(i as int + 1).drop_last() =~= lv.take(i as int));
        assert(lv.take(i as int + 1).last() == line@);
        let ghost prev = lines_view(out);
        assert(expand_lines(idx.chunks(), lv.take(i as int + 1), p) == expand_lines(idx.chunks(), lv.take(i as int), p)
            + expand_line(idx.chunks(), line@, p));
        assert(lines_missing(idx.chunks(), lv.take(i as int + 1), p) == (lines_missing(idx.chunks(), lv.take(i as int), p)
            || line_missing(idx.chunks(), line@, p)));
        match parse_reference(line) {
            None => {
                let pushed = slice_of(line, 0, line.len());
                proof {
                    lemma_lines_push(out@, pushed);
                }
                out.push(pushed);
                assert(line@.subrange(0, line@.len() as int) =~= line@);
                assert(lines_view(out) =~= prev + expand_line(idx.chunks(), line@, p));
            },
            Some((ind, n)) => {
                let name = string_of(&n);
                if on_path(path, &name) {
                    let note = concat(&chars_of("// ERROR: Circular reference detected for chunk '"), &n);
                    let note = concat(&note, &chars_of("'"));
                    let pushed = concat(&ind, &note);
                    proof {
                        lemma_lines_push(out@, pushed);
                    }
                    out.push(pushed);
                    assert(lines_view(out) =~= prev + expand_line(idx.chunks(), line@, p));
                } else {
                    match idx.get(&name) {
                        None => {
                            let note = concat(&chars_of("// ERROR: Chunk '"), &n);
                            let note = concat(&note, &chars_of("' not found"));
                            let pushed = concat(&ind, &note);
                            proof {
                                lemma_lines_push(out@, pushed);
                            }
                            out.push(pushed);
                            missing = true;
                            assert(lines_view(out) =~= prev + expand_line(idx.chunks(), line@, p));
                        },
                        Some(group) => {
                            let ghost g = group@.map_values(|c: Chunk| c@);
                            let child = extended(path, name);
                            let ghost cp = path_view(child);
                            proof {
                                lemma_group_declared(idx.chunks(), n@);
                                lemma_unvisited_push(declared_names(idx.chunks()), p, n@);
                            }
                            let ghost before = lines_view(out);
                            let mut k: usize = 0;
                            let mut group_missed = false;
                            assert(lines_view(out) =~= before + expand_group(idx.chunks(), g, 0, ind@, cp));
                            while k < group.len()
                                invariant
                                    idx.well_formed(),
                                    k <= group@.len(),
                                    g == group@.map_values(|c: Chunk| c@),
                                    cp == path_view(child),
                                    unvisited(declared_names(idx.chunks()), cp) < unvisited(declared_names(idx.chunks()), p),
                                    p == path_view(*path),
                                    lines_view(out) == before + expand_group(idx.chunks(), g, k as int, ind@, cp),
                                    group_missed == group_missing(idx.chunks(), g, k as int, cp),
                                decreases group@.len() - k,
                            {
                                let (body, body_missed) = expand_text(idx, &group[k].content, &child);
                                group_missed = group_missed || body_missed;
                                assert(g[k as int].content == group@[k as int].content@);
                                if k > 0 {
                                    let blank: Vec<char> = Vec::new();
                                    proof {
                                        lemma_lines_push(out@, blank);
                                    }
                                    out.push(blank);
                                }
                                push_indented(&mut out, &ind, &body);
                                k = k + 1;
                                assert(lines_view(out) =~= before + expand_group(idx.chunks(), g, k as int, ind@, cp));
                            }
                            missing = missing || group_missed;
                            assert(lines_view(out) =~= prev + expand_line(idx.chunks(), line@, p));
                        },
                    }
                }
            },
        }
        i = i + 1;
    }
    assert(lv.take(i as int) =~= lv);
    (out, missing)
}

impl Chunk {
    /// Expands this chunk against `named_chunks`: every reference line is replaced
    /// by the expansions of the chunks declared under its name, indented like the
    /// reference and separated by one blank line. A reference to a name that no
    /// chunk declares, or to one that is already being expanded, leaves a
    /// diagnostic line instead. Each line of the result ends with `\n`.
    pub fn expand(&self, named_chunks: &NamedChunks) -> (r: String)
        requires
            named_chunks.well_formed(),
        ensures
            r@ == expansion(named_chunks.chunks(), self@),
    {
        self.expand_checked(named_chunks).0
    }

    /// The expansion of this chunk, and whether it holds a diagnostic for a
    /// name that no chunk declares.
    pub fn expand_checked(&self, named_chunks: &NamedChunks) -> (r: (String, bool))
        requires
            named_chunks.well_formed(),
        ensures
            r.0@ == expansion(named_chunks.chunks(), self@),
            r.1 == expansion_missing(named_chunks.chunks(), self@),
    {
        let mut path: Vec<String> = Vec::new();
        match &self.info.name {
            Some(n) => path.push(n.clone()),
            None => {},
        }
        assert(path_view(path) =~= start_path(self@));
        let (ls, missing) = expand_text(named_chunks, &self.content, &path);
        (render_lines(&ls), missing)
    }
}

} // verus!
