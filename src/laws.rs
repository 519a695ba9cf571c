//! Properties of the parser, the expansion engine and the sync check.
use vstd::prelude::*;
use crate::chunk::{ChunkView, group_of, named_group, declared_names};
use crate::expand::{
    unvisited, expansion, start_path, reference_of, expand_lines, expand_line, expand_group, indent_all, circular_note, missing_note,
};
use crate::text::{lines_of, render, split_state, strip_cr};
use crate::info::{parse_info, lang_split, scan_attrs, attr_at, apply_attr, Attrs, word_end, key_end, close_pos};
use crate::expand::space_end;
use crate::chunk::InfoView;
use crate::text::{is_word, is_ascii_word, is_space};
use crate::output::{OutView, DiskView, Difference, sync_diffs, aggregate, export_path};
use crate::paths::{normal_path, join_path};

verus! {

proof fn lemma_space_end_bounds(s: Seq<char>, i: int)
    requires
        0 <= i <= s.len(),
    ensures
        i <= space_end(s, i) <= s.len(),
    decreases s.len() - i,
{
    if i < s.len() && is_space(s[i]) {
        lemma_space_end_bounds(s, i + 1);
    }
}

proof fn lemma_word_end_bounds(s: Seq<char>, i: int)
    requires
        0 <= i <= s.len(),
    ensures
        i <= word_end(s, i) <= s.len(),
    decreases s.len() - i,
{
    if i < s.len() && is_word(s[i]) {
        lemma_word_end_bounds(s, i + 1);
    }
}

/// Expanding two runs of lines one after the other is expanding them together.
pub proof fn lemma_expand_concat(
    cs: Seq<ChunkView>,
    a: Seq<Seq<char>>,
    b: Seq<Seq<char>>,
    path: Seq<Seq<char>>,
)
    ensures
        expand_lines(cs, a + b, path) == expand_lines(cs, a, path) + expand_lines(cs, b, path),
    decreases b.len(),
{
    if b.len() == 0 {
        assert(a + b =~= a);
        assert(expand_lines(cs, a, path) + expand_lines(cs, b, path) =~= expand_lines(cs, a, path));
    } else {
        assert((a + b).drop_last() =~= a + b.drop_last());
        assert((a + b).last() == b.last());
        lemma_expand_concat(cs, a, b.drop_last(), path);
        assert(expand_lines(cs, a + b, path) =~= expand_lines(cs, a, path) + expand_lines(cs, b, path));
    }
}

/// A reference to a name that no chunk declares becomes exactly one diagnostic
/// line at that place, and the lines before and after it are expanded as usual.
pub proof fn lemma_missing_reference(
    cs: Seq<ChunkView>,
    before: Seq<Seq<char>>,
    line: Seq<char>,
    after: Seq<Seq<char>>,
    path: Seq<Seq<char>>,
    ind: Seq<char>,
    n: Seq<char>,
)
    requires
        reference_of(line) == Some((ind, n)),
        !path.contains(n),
        named_group(cs, n) is None,
    ensures
        expand_line(cs, line, path) == seq![ind + missing_note(n)],
        expand_lines(cs, before + seq![line] + after, path) == expand_lines(cs, before, path)
            + seq![ind + missing_note(n)] + expand_lines(cs, after, path),
{
    lemma_expand_concat(cs, before + seq![line], after, path);
    lemma_expand_concat(cs, before, seq![line], path);
    assert(seq![line].drop_last() =~= Seq::<Seq<char>>::empty());
    assert(expand_lines(cs, seq![line].drop_last(), path) =~= Seq::<Seq<char>>::empty());
    assert(expand_lines(cs, seq![line], path) =~= expand_line(cs, line, path));
}

/// A reference to a name that is already being expanded becomes exactly one
/// circular-reference diagnostic line, and is not expanded again.
pub proof fn lemma_circular_reference(
    cs: Seq<ChunkView>,
    line: Seq<char>,
    path: Seq<Seq<char>>,
    ind: Seq<char>,
    n: Seq<char>,
)
    requires
        reference_of(line) == Some((ind, n)),
        path.contains(n),
    ensures
        expand_line(cs, line, path) == seq![ind + circular_note(n)],
{
}

/// A chunk whose only line references its own name expands to one
/// circular-reference diagnostic.
pub proof fn lemma_self_reference(cs: Seq<ChunkView>, line: Seq<char>, n: Seq<char>)
    requires
        reference_of(line) == Some((Seq::<char>::empty(), n)),
    ensures
        expand_lines(cs, seq![line], seq![n]) == seq![circular_note(n)],
{
    assert(seq![n][0] == n);
    assert(seq![line].drop_last() =~= Seq::<Seq<char>>::empty());
    assert(expand_lines(cs, seq![line].drop_last(), seq![n]) =~= Seq::<Seq<char>>::empty());
    assert(seq![n].contains(n));
    assert(seq![line].last() == line);
    assert(expand_line(cs, line, seq![n]) == seq![Seq::<char>::empty() + circular_note(n)]);
    assert(Seq::<char>::empty() + circular_note(n) =~= circular_note(n));
    assert(expand_lines(cs, seq![line], seq![n]) =~= seq![circular_note(n)]);
}

proof fn lemma_group_none(cs: Seq<ChunkView>, n: Seq<char>)
    requires
        forall|x: int| 0 <= x < cs.len() ==> cs[x].info.name != Some(n),
    ensures
        group_of(cs, n) == Seq::<ChunkView>::empty(),
    decreases cs.len(),
{
    if cs.len() > 0 {
        lemma_group_none(cs.drop_last(), n);
        assert(group_of(cs, n) =~= Seq::<ChunkView>::empty());
    }
}

proof fn lemma_group_one(cs: Seq<ChunkView>, n: Seq<char>, i: int)
    requires
        0 <= i < cs.len(),
        cs[i].info.name == Some(n),
        forall|x: int| 0 <= x < cs.len() && x != i ==> cs[x].info.name != Some(n),
    ensures
        group_of(cs, n) == seq![cs[i]],
    decreases cs.len(),
{
    if i == cs.len() - 1 {
        lemma_group_none(cs.drop_last(), n);
        assert(group_of(cs, n) =~= seq![cs[i]]);
    } else {
        lemma_group_one(cs.drop_last(), n, i);
        assert(group_of(cs, n) =~= seq![cs[i]]);
    }
}

proof fn lemma_group_two(cs: Seq<ChunkView>, n: Seq<char>, i: int, j: int)
    requires
        0 <= i < j < cs.len(),
        cs[i].info.name == Some(n),
        cs[j].info.name == Some(n),
        forall|x: int| 0 <= x < cs.len() && x != i && x != j ==> cs[x].info.name != Some(n),
    ensures
        group_of(cs, n) == seq![cs[i], cs[j]],
    decreases cs.len(),
{
    if j == cs.len() - 1 {
        lemma_group_one(cs.drop_last(), n, i);
        assert(group_of(cs, n) =~= seq![cs[i], cs[j]]);
    } else {
        lemma_group_two(cs.drop_last(), n, i, j);
        assert(group_of(cs, n) =~= seq![cs[i], cs[j]]);
    }
}

/// Where exactly two chunks declare a name, a reference to it expands to the
/// first declared one, one blank line, then the second, both indented like the
/// reference.
pub proof fn lemma_two_chunks_one_name(
    cs: Seq<ChunkView>,
    i: int,
    j: int,
    line: Seq<char>,
    path: Seq<Seq<char>>,
    ind: Seq<char>,
    n: Seq<char>,
)
    requires
        0 <= i < j < cs.len(),
        cs[i].info.name == Some(n),
        cs[j].info.name == Some(n),
        forall|x: int| 0 <= x < cs.len() && x != i && x != j ==> cs[x].info.name != Some(n),
        reference_of(line) == Some((ind, n)),
        !path.contains(n),
    ensures
        expand_line(cs, line, path) == indent_all(
            ind,
            expand_lines(cs, lines_of(cs[i].content), path.push(n)),
        ) + seq![Seq::<char>::empty()] + indent_all(
            ind,
            expand_lines(cs, lines_of(cs[j].content), path.push(n)),
        ),
{
    lemma_group_two(cs, n, i, j);
    let g = group_of(cs, n);
    assert(g[0] == cs[i] && g[1] == cs[j]);
    let p = path.push(n);
    assert(expand_group(cs, g, 1, ind, p) == indent_all(ind, expand_lines(cs, lines_of(cs[i].content), p)));
    assert(expand_line(cs, line, path) == expand_group(cs, g, 2, ind, p));
}

/// Every line of the expansion of a group is either a blank separator or
/// starts with the indentation.
proof fn lemma_group_indented(
    cs: Seq<ChunkView>,
    g: Seq<ChunkView>,
    k: int,
    ind: Seq<char>,
    path: Seq<Seq<char>>,
)
    ensures
        forall|x: int|
            0 <= x < expand_group(cs, g, k, ind, path).len() ==> {
                let l = #[trigger] expand_group(cs, g, k, ind, path)[x];
                l.len() == 0 || (ind.len() <= l.len() && l.take(ind.len() as int) == ind)
            },
    decreases k,
{
    if k > 0 {
        lemma_group_indented(cs, g, k - 1, ind, path);
        let body = indent_all(ind, expand_lines(cs, lines_of(g[k - 1].content), path));
        assert forall|x: int| 0 <= x < body.len() implies {
            let l = #[trigger] body[x];
            ind.len() <= l.len() && l.take(ind.len() as int) == ind
        } by {
            assert(body[x].take(ind.len() as int) =~= ind);
        }
        let prev = expand_group(cs, g, k - 1, ind, path);
        let all = expand_group(cs, g, k, ind, path);
        if k > 1 {
            assert forall|x: int| 0 <= x < all.len() implies {
                let l = #[trigger] all[x];
                l.len() == 0 || (ind.len() <= l.len() && l.take(ind.len() as int) == ind)
            } by {
                if x < prev.len() {
                    assert(all[x] == prev[x]);
                } else if x == prev.len() {
                    assert(all[x] == Seq::<char>::empty());
                } else {
                    assert(all[x] == body[x - prev.len() - 1]);
                }
            }
        }
    }
}

/// The indentation of a reference line starts every line of its expansion,
/// nested expansions included; only the blank lines that separate two chunks
/// of the same name are left empty.
pub proof fn lemma_indentation_kept(
    cs: Seq<ChunkView>,
    line: Seq<char>,
    path: Seq<Seq<char>>,
    ind: Seq<char>,
    n: Seq<char>,
)
    requires
        reference_of(line) == Some((ind, n)),
    ensures
        forall|x: int|
            0 <= x < expand_line(cs, line, path).len() ==> {
                let l = #[trigger] expand_line(cs, line, path)[x];
                l.len() == 0 || (ind.len() <= l.len() && l.take(ind.len() as int) == ind)
            },
{
    let out = expand_line(cs, line, path);
    if path.contains(n) || named_group(cs, n) is None {
        let note = if path.contains(n) { circular_note(n) } else { missing_note(n) };
        assert(out == seq![ind + note]);
        assert((ind + note).take(ind.len() as int) =~= ind);
    } else {
        let g = group_of(cs, n);
        assert(out == expand_group(cs, g, g.len() as int, ind, path.push(n)));
        lemma_group_indented(cs, g, g.len() as int, ind, path.push(n));
    }
}

proof fn lemma_word_end_at(s: Seq<char>, i: int, j: int)
    requires
        0 <= i <= j <= s.len(),
        forall|x: int| i <= x < j ==> is_word(s[x]),
        j == s.len() || !is_word(s[j]),
    ensures
        word_end(s, i) == j,
    decreases j - i,
{
    if i < j {
        lemma_word_end_at(s, i + 1, j);
    }
}

proof fn lemma_key_end_at(s: Seq<char>, i: int, j: int)
    requires
        0 <= i <= j <= s.len(),
        forall|x: int| i <= x < j ==> is_ascii_word(s[x]),
        j == s.len() || !is_ascii_word(s[j]),
    ensures
        key_end(s, i) == j,
    decreases j - i,
{
    if i < j {
        lemma_key_end_at(s, i + 1, j);
    }
}

proof fn lemma_close_at(s: Seq<char>, i: int, j: int)
    requires
        0 <= i <= j < s.len(),
        forall|x: int| i <= x < j ==> s[x] != '}',
        s[j] == '}',
    ensures
        close_pos(s, i) == j,
    decreases j - i,
{
    if i < j {
        lemma_close_at(s, i + 1, j);
    }
}

/// A non-empty value: no `}` and no line break in it.
pub open spec fn plain_value(v: Seq<char>) -> bool {
    v.len() > 0 && !v.contains('}') && !v.contains('\n')
}

/// A non-empty run of word characters that are not whitespace.
pub open spec fn plain_word(w: Seq<char>) -> bool {
    w.len() > 0 && forall|x: int| 0 <= x < w.len() ==> is_word(w[x]) && !is_space(w[x])
}

/// A non-empty run of key characters.
pub open spec fn plain_key(w: Seq<char>) -> bool {
    w.len() > 0 && forall|x: int| 0 <= x < w.len() ==> is_ascii_word(w[x])
}

proof fn lemma_attr_value(t: Seq<char>, p: int, key: Seq<char>, val: Seq<char>)
    requires
        plain_key(key),
        plain_value(val),
        0 <= p,
        p + key.len() + val.len() + 3 <= t.len(),
        t.subrange(p, p + key.len() + val.len() + 3) == "{"@ + key + "="@ + val + "}"@,
    ensures
        attr_at(t, p) == Some((key, Some(val), p + key.len() + val.len() + 3)),
{
    reveal_strlit("{");
    reveal_strlit("=");
    reveal_strlit("}");
    let u = t.subrange(p, p + key.len() + val.len() + 3);
    let k = p + 1 + key.len();
    assert(u[0] == '{');
    assert(t[p] == u[0]);
    assert forall|x: int| p + 1 <= x < k implies is_ascii_word(t[x]) by {
        assert(t[x] == u[x - p]);
        assert(u[x - p] == key[x - p - 1]);
    }
    assert(t[k] == u[k - p]);
    assert(u[k - p] == '=');
    lemma_key_end_at(t, p + 1, k);
    let v = k + 1 + val.len();
    assert forall|x: int| k + 1 <= x < v implies t[x] != '}' by {
        assert(t[x] == u[x - p]);
        assert(u[x - p] == val[x - k - 1]);
        if val[x - k - 1] == '}' {
            assert(val.contains('}'));
        }
    }
    assert(t[v] == u[v - p]);
    assert(u[v - p] == '}');
    lemma_close_at(t, k + 1, v);
    assert(t.subrange(p + 1, k) =~= key) by {
        assert forall|x: int| 0 <= x < key.len() implies t.subrange(p + 1, k)[x] == key[x] by {
            assert(t[p + 1 + x] == u[1 + x]);
        }
    }
    assert(t.subrange(k + 1, v) =~= val) by {
        assert forall|x: int| 0 <= x < val.len() implies t.subrange(k + 1, v)[x] == val[x] by {
            assert(t[k + 1 + x] == u[k + 1 + x - p]);
        }
    }
}

proof fn lemma_attr_bare(t: Seq<char>, p: int, key: Seq<char>)
    requires
        plain_key(key),
        0 <= p,
        p + key.len() + 2 <= t.len(),
        t.subrange(p, p + key.len() + 2) == "{"@ + key + "}"@,
    ensures
        attr_at(t, p) == Some((key, None::<Seq<char>>, p + key.len() + 2)),
{
    reveal_strlit("{");
    reveal_strlit("}");
    let u = t.subrange(p, p + key.len() + 2);
    let k = p + 1 + key.len();
    assert(t[p] == u[0]);
    assert forall|x: int| p + 1 <= x < k implies is_ascii_word(t[x]) by {
        assert(t[x] == u[x - p]);
        assert(u[x - p] == key[x - p - 1]);
    }
    assert(t[k] == u[k - p]);
    lemma_key_end_at(t, p + 1, k);
    assert(t.subrange(p + 1, k) =~= key) by {
        assert forall|x: int| 0 <= x < key.len() implies t.subrange(p + 1, k)[x] == key[x] by {
            assert(t[p + 1 + x] == u[1 + x]);
        }
    }
}

/// The language word followed by one space and an attribute region that
/// starts with `{` and has no line break.
proof fn lemma_lang_split(w: Seq<char>, t: Seq<char>)
    requires
        plain_word(w),
        t.len() > 0,
        t[0] == '{',
        !t.contains('\n'),
    ensures
        lang_split(w + " "@ + t) == Some((w, t)),
{
    reveal_strlit(" ");
    let s = w + " "@ + t;
    assert(s[0] == w[0]);
    assert(!is_space(s[0]));
    assert(space_end(s, 0) == 0);
    assert(s[w.len() as int] == ' ');
    assert forall|x: int| 0 <= x < w.len() implies is_word(s[x]) by {
        assert(s[x] == w[x]);
    }
    lemma_word_end_at(s, 0, w.len() as int);
    assert(s[w.len() as int + 1] == '{');
    assert(space_end(s, w.len() as int + 1) == w.len() + 1);
    assert(space_end(s, w.len() as int) == w.len() + 1);
    assert(s.subrange(0, w.len() as int) =~= w);
    assert(s.skip(w.len() as int + 1) =~= t);
}

proof fn lemma_scan_space(t: Seq<char>, p: int, acc: Attrs)
    requires
        0 <= p < t.len(),
        t[p] == ' ',
    ensures
        scan_attrs(t, p, acc) == scan_attrs(t, p + 1, acc),
{
}

/// `{export}` alone marks a chunk for export without a path.
pub proof fn lemma_bare_export(w: Seq<char>)
    requires
        plain_word(w),
    ensures
        parse_info(w + " "@ + "{export}"@) == Some(
            InfoView { lang: w, path: None, name: None, export: true },
        ),
{
    reveal_strlit("{export}");
    reveal_strlit("export");
    reveal_strlit("{");
    reveal_strlit("}");
    let t = "{export}"@;
    assert(!t.contains('\n')) by {
        assert forall|x: int| 0 <= x < t.len() implies t[x] != '\n' by {}
    }
    assert(t[0] == '{');
    lemma_lang_split(w, t);
    assert("export"@.len() == 6);
    assert(plain_key("export"@));
    assert(t.subrange(0, 8) =~= "{"@ + "export"@ + "}"@);
    lemma_attr_bare(t, 0, "export"@);
    let init: Attrs = (false, None, None);
    assert(scan_attrs(t, 8, apply_attr(init, "export"@, None)) == (true, None::<Seq<char>>, None::<Seq<char>>));
    assert(scan_attrs(t, 0, init) == scan_attrs(t, 8, apply_attr(init, "export"@, None)));
}

/// The export attribute with value `pv` in the attribute text.
pub open spec fn export_attr(pv: Seq<char>) -> Seq<char> {
    "{"@ + "export"@ + "="@ + pv + "}"@
}

/// The name attribute with value `nv` in the attribute text.
pub open spec fn name_attr(nv: Seq<char>) -> Seq<char> {
    "{"@ + "name"@ + "="@ + nv + "}"@
}

proof fn lemma_attr_text(key: Seq<char>, v: Seq<char>)
    requires
        plain_value(v),
        !key.contains('\n'),
    ensures
        !("{"@ + key + "="@ + v + "}"@).contains('\n'),
        ("{"@ + key + "="@ + v + "}"@)[0] == '{',
        ("{"@ + key + "="@ + v + "}"@).len() == key.len() + v.len() + 3,
{
    reveal_strlit("{");
    reveal_strlit("=");
    reveal_strlit("}");
    let a = "{"@ + key + "="@ + v + "}"@;
    assert forall|x: int| 0 <= x < a.len() implies a[x] != '\n' by {
        if 1 <= x < 1 + key.len() {
            assert(a[x] == key[x - 1]);
            if key[x - 1] == '\n' {
                assert(key.contains('\n'));
            }
        } else if 2 + key.len() <= x < 2 + key.len() + v.len() {
            assert(a[x] == v[x - 2 - key.len()]);
            if v[x - 2 - key.len()] == '\n' {
                assert(v.contains('\n'));
            }
        }
    }
}

/// `{export=P}` marks a chunk for export to `P`.
pub proof fn lemma_export_with_path(w: Seq<char>, pv: Seq<char>)
    requires
        plain_word(w),
        plain_value(pv),
    ensures
        parse_info(w + " "@ + export_attr(pv)) == Some(
            InfoView { lang: w, path: Some(pv), name: None, export: true },
        ),
{
    reveal_strlit("export");
    let t = export_attr(pv);
    assert(plain_key("export"@));
    assert(!"export"@.contains('\n'));
    lemma_attr_text("export"@, pv);
    lemma_lang_split(w, t);
    assert(t.subrange(0, t.len() as int) =~= t);
    lemma_attr_value(t, 0, "export"@, pv);
    let init: Attrs = (false, None, None);
    assert(scan_attrs(t, 0, init) == scan_attrs(t, t.len() as int, apply_attr(init, "export"@, Some(pv))));
}

proof fn lemma_scan_step(t: Seq<char>, p: int, key: Seq<char>, val: Seq<char>, acc: Attrs)
    requires
        plain_key(key),
        plain_value(val),
        0 <= p,
        p + key.len() + val.len() + 3 <= t.len(),
        t.subrange(p, p + key.len() + val.len() + 3) == "{"@ + key + "="@ + val + "}"@,
    ensures
        scan_attrs(t, p, acc) == scan_attrs(
            t,
            p + key.len() + val.len() + 3,
            apply_attr(acc, key, Some(val)),
        ),
{
    lemma_attr_value(t, p, key, val);
}

proof fn lemma_spaced_parts(a: Seq<char>, b: Seq<char>)
    ensures
        (a + " "@ + b).subrange(0, a.len() as int) == a,
        (a + " "@ + b)[a.len() as int] == ' ',
        (a + " "@ + b).subrange(a.len() as int + 1, a.len() as int + 1 + b.len()) == b,
        (a + " "@ + b).len() == a.len() + 1 + b.len(),
{
    reveal_strlit(" ");
    let t = a + " "@ + b;
    assert(t.subrange(0, a.len() as int) =~= a);
    assert(t.subrange(a.len() as int + 1, a.len() as int + 1 + b.len()) =~= b);
}

proof fn lemma_two_attrs(
    a: Seq<char>,
    ka: Seq<char>,
    va: Seq<char>,
    b: Seq<char>,
    kb: Seq<char>,
    vb: Seq<char>,
    acc: Attrs,
)
    requires
        plain_key(ka),
        plain_key(kb),
        plain_value(va),
        plain_value(vb),
        a == "{"@ + ka + "="@ + va + "}"@,
        b == "{"@ + kb + "="@ + vb + "}"@,
        a.len() == ka.len() + va.len() + 3,
        b.len() == kb.len() + vb.len() + 3,
    ensures
        scan_attrs(a + " "@ + b, 0, acc) == apply_attr(apply_attr(acc, ka, Some(va)), kb, Some(vb)),
{
    let t = a + " "@ + b;
    lemma_spaced_parts(a, b);
    let e = a.len() as int;
    let acc1 = apply_attr(acc, ka, Some(va));
    lemma_scan_step(t, 0, ka, va, acc);
    lemma_scan_space(t, e, acc1);
    lemma_scan_step(t, e + 1, kb, vb, acc1);
}

/// The order of an export path and a name does not change what is parsed.
#[verifier::spinoff_prover]
#[verifier::rlimit(60)]
pub proof fn lemma_attribute_order(w: Seq<char>, pv: Seq<char>, nv: Seq<char>)
    requires
        plain_word(w),
        plain_value(pv),
        plain_value(nv),
    ensures
        parse_info(w + " "@ + export_attr(pv) + " "@ + name_attr(nv)) == parse_info(
            w + " "@ + name_attr(nv) + " "@ + export_attr(pv),
        ),
        parse_info(w + " "@ + export_attr(pv) + " "@ + name_attr(nv)) == Some(
            InfoView { lang: w, path: Some(pv), name: Some(nv), export: true },
        ),
{
    reveal_strlit("export");
    reveal_strlit("name");
    reveal_strlit(" ");
    assert(plain_key("export"@));
    assert(plain_key("name"@));
    assert(!"export"@.contains('\n'));
    assert(!"name"@.contains('\n'));
    let x = export_attr(pv);
    let y = name_attr(nv);
    lemma_attr_text("export"@, pv);
    lemma_attr_text("name"@, nv);
    let init: Attrs = (false, None, None);
    let t1 = x + " "@ + y;
    let t2 = y + " "@ + x;
    assert forall|i: int| 0 <= i < t1.len() implies t1[i] != '\n' by {
        if i < x.len() {
            assert(t1[i] == x[i]);
            if x[i] == '\n' { assert(x.contains('\n')); }
        } else if i > x.len() {
            assert(t1[i] == y[i - x.len() - 1]);
            if y[i - x.len() - 1] == '\n' { assert(y.contains('\n')); }
        }
    }
    assert forall|i: int| 0 <= i < t2.len() implies t2[i] != '\n' by {
        if i < y.len() {
            assert(t2[i] == y[i]);
            if y[i] == '\n' { assert(y.contains('\n')); }
        } else if i > y.len() {
            assert(t2[i] == x[i - y.len() - 1]);
            if x[i - y.len() - 1] == '\n' { assert(x.contains('\n')); }
        }
    }
    assert(t1[0] == '{');
    assert(t2[0] == '{');
    lemma_lang_split(w, t1);
    lemma_lang_split(w, t2);
    assert(w + " "@ + x + " "@ + y =~= w + " "@ + t1);
    assert(w + " "@ + y + " "@ + x =~= w + " "@ + t2);
    lemma_two_attrs(x, "export"@, pv, y, "name"@, nv, init);
    lemma_two_attrs(y, "name"@, nv, x, "export"@, pv, init);
}

/// An attribute that makes a block a chunk: `export`, or `name` with a value.
pub open spec fn marks_chunk(a: Option<(Seq<char>, Option<Seq<char>>, int)>) -> bool {
    match a {
        Some((k, v, e)) => k == "export"@ || (k == "name"@ && v is Some),
        None => false,
    }
}

proof fn lemma_scan_unmarked(t: Seq<char>, p: int)
    requires
        forall|x: int| !marks_chunk(#[trigger] attr_at(t, x)),
    ensures
        scan_attrs(t, p, (false, None, None)) == (false, None::<Seq<char>>, None::<Seq<char>>),
    decreases t.len() - p,
{
    let init: Attrs = (false, None, None);
    if 0 <= p < t.len() {
        assert(!marks_chunk(attr_at(t, p)));
        match attr_at(t, p) {
            Some((k, v, e)) => {
                if e > p {
                    assert(apply_attr(init, k, v) == init);
                    lemma_scan_unmarked(t, e);
                }
            },
            None => {
                lemma_scan_unmarked(t, p + 1);
            },
        }
    }
}

/// An info string that holds, after any position, no `{export}`,
/// `{export=…}` or `{name=…}` attribute does not start a chunk; bare `{name}`
/// and unknown keys may be present.
pub proof fn lemma_unmarked_no_chunk(s: Seq<char>)
    requires
        forall|q: int, x: int| 0 <= q <= s.len() ==> !marks_chunk(#[trigger] attr_at(s.skip(q), x)),
    ensures
        parse_info(s) is None,
{
    if let Some((lang, attrs)) = lang_split(s) {
        let c = space_end(s, word_end(s, space_end(s, 0)));
        lemma_space_end_bounds(s, 0);
        lemma_word_end_bounds(s, space_end(s, 0));
        lemma_space_end_bounds(s, word_end(s, space_end(s, 0)));
        assert forall|x: int| !marks_chunk(#[trigger] attr_at(s.skip(c), x)) by {
            assert(!marks_chunk(attr_at(s.skip(c), x)));
        }
        lemma_scan_unmarked(s.skip(c), 0);
    }
}

/// Lines with no reference among them expand to themselves.
pub proof fn lemma_plain_lines(cs: Seq<ChunkView>, ls: Seq<Seq<char>>, path: Seq<Seq<char>>)
    requires
        forall|x: int| 0 <= x < ls.len() ==> #[trigger] reference_of(ls[x]) is None,
    ensures
        expand_lines(cs, ls, path) == ls,
    decreases ls.len(),
{
    if ls.len() > 0 {
        assert forall|x: int| 0 <= x < ls.drop_last().len() implies #[trigger] reference_of(
            ls.drop_last()[x],
        ) is None by {
            assert(ls.drop_last()[x] == ls[x]);
        }
        lemma_plain_lines(cs, ls.drop_last(), path);
        assert(reference_of(ls[ls.len() - 1]) is None);
        assert(expand_line(cs, ls.last(), path) == seq![ls.last()]);
        assert(expand_lines(cs, ls, path) =~= ls);
    }
}

proof fn lemma_split_plain(s: Seq<char>)
    requires
        !s.contains('\r'),
    ensures
        s.len() > 0 && s.last() == '\n' ==> split_state(s).1.len() == 0,
        render(split_state(s).0) + split_state(s).1 == s,
    decreases s.len(),
{
    if s.len() > 0 {
        let t = s.drop_last();
        assert forall|x: int| 0 <= x < t.len() implies t[x] != '\r' by {
            assert(t[x] == s[x]);
            if s[x] == '\r' {
                assert(s.contains('\r'));
            }
        }
        lemma_split_plain(t);
        let (d, o) = split_state(t);
        if s.last() == '\n' {
            if o.len() > 0 && o.last() == '\r' {
                assert(render(d) + o == t);
                assert(t[t.len() - 1] == o.last());
                assert(s[t.len() - 1] == '\r');
                assert(s.contains('\r'));
            }
            assert(strip_cr(o) == o);
            assert(render(d.push(o)) == render(d) + o + seq!['\n']) by {
                assert(d.push(o).drop_last() =~= d);
            }
            assert(render(d.push(o)) + Seq::<char>::empty() =~= s);
        } else {
            assert(render(d) + o == t);
            assert(t.push(s.last()) =~= s);
            assert(render(d) + o.push(s.last()) =~= (render(d) + o).push(s.last()));
        }
    }
}

/// A text that ends with a line break and holds no carriage return renders
/// back from its lines unchanged.
pub proof fn lemma_lines_round_trip(s: Seq<char>)
    requires
        s.len() > 0,
        s.last() == '\n',
        !s.contains('\r'),
    ensures
        render(lines_of(s)) == s,
{
    lemma_split_plain(s);
    assert(split_state(s).0 == lines_of(s));
    assert(render(split_state(s).0) + Seq::<char>::empty() =~= render(split_state(s).0));
}

/// A chunk whose lines hold no reference, whose text ends with a line break
/// and holds no carriage return, expands to its own text.
pub proof fn lemma_plain_chunk(cs: Seq<ChunkView>, c: ChunkView)
    requires
        forall|x: int|
            0 <= x < lines_of(c.content).len() ==> #[trigger] reference_of(lines_of(c.content)[x])
                is None,
        c.content.len() > 0,
        c.content.last() == '\n',
        !c.content.contains('\r'),
    ensures
        expansion(cs, c) == c.content,
{
    lemma_plain_lines(cs, lines_of(c.content), start_path(c));
    lemma_lines_round_trip(c.content);
}

proof fn lemma_key_end_shift(x: Seq<char>, y: Seq<char>, i: int)
    requires
        0 <= i <= y.len(),
    ensures
        key_end(x + y, x.len() + i) == x.len() + key_end(y, i),
    decreases y.len() - i,
{
    if i < y.len() {
        assert((x + y)[x.len() + i] == y[i]);
        lemma_key_end_shift(x, y, i + 1);
    }
}

proof fn lemma_close_shift(x: Seq<char>, y: Seq<char>, i: int)
    requires
        0 <= i <= y.len(),
    ensures
        close_pos(x + y, x.len() + i) == x.len() + close_pos(y, i),
    decreases y.len() - i,
{
    if i < y.len() {
        assert((x + y)[x.len() + i] == y[i]);
        lemma_close_shift(x, y, i + 1);
    }
}

proof fn lemma_key_end_bounds(s: Seq<char>, i: int)
    requires
        0 <= i <= s.len(),
    ensures
        i <= key_end(s, i) <= s.len(),
    decreases s.len() - i,
{
    if i < s.len() && is_ascii_word(s[i]) {
        lemma_key_end_bounds(s, i + 1);
    }
}

proof fn lemma_close_bounds(s: Seq<char>, i: int)
    requires
        0 <= i <= s.len(),
    ensures
        i <= close_pos(s, i) <= s.len(),
    decreases s.len() - i,
{
    if i < s.len() && s[i] != '}' {
        lemma_close_bounds(s, i + 1);
    }
}

/// An attribute found in `y` is found at the same place after a prefix `x`.
proof fn lemma_attr_shift(x: Seq<char>, y: Seq<char>, p: int)
    requires
        0 <= p < y.len(),
    ensures
        attr_at(x + y, x.len() + p) == match attr_at(y, p) {
            Some((k, v, e)) => Some((k, v, x.len() + e)),
            None => None,
        },
{
    let t = x + y;
    let d = x.len() as int;
    assert(t[d + p] == y[p]);
    lemma_key_end_shift(x, y, p + 1);
    lemma_key_end_bounds(y, p + 1);
    let k = key_end(y, p + 1);
    if k < y.len() {
        assert(t[d + k] == y[k]);
        lemma_close_shift(x, y, k + 1);
        lemma_close_bounds(y, k + 1);
        let v = close_pos(y, k + 1);
        assert(t.subrange(d + p + 1, d + k) =~= y.subrange(p + 1, k));
        if v < y.len() {
            assert(t[d + v] == y[v]);
            assert(t.subrange(d + k + 1, d + v) =~= y.subrange(k + 1, v));
        }
    }
}

/// Scanning after a prefix is scanning the rest alone.
proof fn lemma_scan_shift(x: Seq<char>, y: Seq<char>, p: int, acc: Attrs)
    requires
        0 <= p,
    ensures
        scan_attrs(x + y, x.len() + p, acc) == scan_attrs(y, p, acc),
    decreases y.len() - p,
{
    if p < y.len() {
        lemma_attr_shift(x, y, p);
        match attr_at(y, p) {
            Some((k, v, e)) => {
                if e > p {
                    lemma_scan_shift(x, y, e, apply_attr(acc, k, v));
                }
            },
            None => {
                lemma_scan_shift(x, y, p + 1, acc);
            },
        }
    }
}

/// An attribute token: a key, and a value where it has one.
pub type Token = (Seq<char>, Option<Seq<char>>);

/// A token that reads back as itself: a key of key characters and a plain value.
pub open spec fn good_token(t: Token) -> bool {
    plain_key(t.0) && match t.1 {
        Some(v) => plain_value(v),
        None => true,
    }
}

/// The text of a token: `{key}` or `{key=value}`.
pub open spec fn token_text(t: Token) -> Seq<char> {
    match t.1 {
        Some(v) => "{"@ + t.0 + "="@ + v + "}"@,
        None => "{"@ + t.0 + "}"@,
    }
}

/// Tokens written one after another, each followed by a space.
pub open spec fn tokens_text(ts: Seq<Token>) -> Seq<char>
    decreases ts.len(),
{
    if ts.len() == 0 {
        seq![]
    } else {
        token_text(ts[0]) + " "@ + tokens_text(ts.drop_first())
    }
}

/// The tokens applied from left to right.
pub open spec fn apply_tokens(ts: Seq<Token>, acc: Attrs) -> Attrs
    decreases ts.len(),
{
    if ts.len() == 0 {
        acc
    } else {
        apply_tokens(ts.drop_first(), apply_attr(acc, ts[0].0, ts[0].1))
    }
}

proof fn lemma_scan_tokens(ts: Seq<Token>, acc: Attrs)
    requires
        forall|i: int| 0 <= i < ts.len() ==> good_token(#[trigger] ts[i]),
    ensures
        scan_attrs(tokens_text(ts), 0, acc) == apply_tokens(ts, acc),
    decreases ts.len(),
{
    reveal_strlit(" ");
    reveal_strlit("{");
    reveal_strlit("}");
    reveal_strlit("=");
    if ts.len() > 0 {
        let tok = ts[0];
        assert(good_token(tok));
        let rest = ts.drop_first();
        assert forall|i: int| 0 <= i < rest.len() implies good_token(#[trigger] rest[i]) by {
            assert(rest[i] == ts[i + 1]);
        }
        lemma_scan_tokens(rest, apply_attr(acc, tok.0, tok.1));
        let head = token_text(tok);
        let x = head + " "@;
        let t = tokens_text(ts);
        assert(t =~= x + tokens_text(rest));
        assert(t.subrange(0, head.len() as int) =~= head);
        let acc1 = apply_attr(acc, tok.0, tok.1);
        match tok.1 {
            Some(v) => {
                lemma_scan_step(t, 0, tok.0, v, acc);
            },
            None => {
                lemma_attr_bare(t, 0, tok.0);
            },
        }
        assert(scan_attrs(t, 0, acc) == scan_attrs(t, head.len() as int, acc1));
        assert(t[head.len() as int] == ' ');
        lemma_scan_space(t, head.len() as int, acc1);
        lemma_scan_shift(x, tokens_text(rest), 0, acc1);
    }
}

/// Whether some token has the key `export`.
pub open spec fn any_export(ts: Seq<Token>) -> bool {
    exists|i: int| 0 <= i < ts.len() && (#[trigger] ts[i]).0 == "export"@
}

/// The value of the last token with key `key` and a value, if any.
pub open spec fn last_value(ts: Seq<Token>, key: Seq<char>) -> Option<Seq<char>>
    decreases ts.len(),
{
    if ts.len() == 0 {
        None
    } else if ts.last().0 == key && ts.last().1 is Some {
        ts.last().1
    } else {
        last_value(ts.drop_last(), key)
    }
}

proof fn lemma_apply_tokens_push(ts: Seq<Token>, x: Token, acc: Attrs)
    ensures
        apply_tokens(ts.push(x), acc) == apply_attr(apply_tokens(ts, acc), x.0, x.1),
    decreases ts.len(),
{
    if ts.len() > 0 {
        assert(ts.push(x).drop_first() =~= ts.drop_first().push(x));
        assert(ts.push(x)[0] == ts[0]);
        lemma_apply_tokens_push(ts.drop_first(), x, apply_attr(acc, ts[0].0, ts[0].1));
    } else {
        assert(ts.push(x).drop_first() =~= Seq::<Token>::empty());
        assert(ts.push(x)[0] == x);
        assert(apply_tokens(Seq::<Token>::empty(), apply_attr(acc, x.0, x.1)) == apply_attr(acc, x.0, x.1));
        assert(apply_tokens(ts, acc) == acc);
    }
}

/// Applying tokens marks an export where any token has the key `export`, and
/// keeps the last export path and the last name that carry a value: a later
/// bare `{export}` never clears a path.
pub proof fn lemma_last_wins(ts: Seq<Token>)
    ensures
        apply_tokens(ts, (false, None, None)) == (
            any_export(ts),
            last_value(ts, "export"@),
            last_value(ts, "name"@),
        ),
    decreases ts.len(),
{
    if ts.len() > 0 {
        let init: Attrs = (false, None, None);
        let front = ts.drop_last();
        reveal_strlit("export");
        reveal_strlit("name");
        assert("export"@.len() != "name"@.len());
        lemma_last_wins(front);
        assert(front.push(ts.last()) =~= ts);
        lemma_apply_tokens_push(front, ts.last(), init);
        if any_export(front) {
            let i = choose|i: int| 0 <= i < front.len() && (#[trigger] front[i]).0 == "export"@;
            assert(ts[i] == front[i]);
        }
        if ts.last().0 == "export"@ {
            assert(ts[ts.len() - 1].0 == "export"@);
        }
        if any_export(ts) {
            let i = choose|i: int| 0 <= i < ts.len() && (#[trigger] ts[i]).0 == "export"@;
            if i < front.len() {
                assert(front[i] == ts[i]);
            }
        }
    }
}

/// An info string made of a language word and attribute tokens parses to what
/// applying the tokens from left to right gives: an export where any token is
/// `export`, the last export path and the last name with a value.
pub proof fn lemma_attribute_tokens(w: Seq<char>, ts: Seq<Token>)
    requires
        plain_word(w),
        ts.len() > 0,
        forall|i: int| 0 <= i < ts.len() ==> good_token(#[trigger] ts[i]),
    ensures
        parse_info(w + " "@ + tokens_text(ts)) == if !any_export(ts) && last_value(ts, "export"@) is None
            && last_value(ts, "name"@) is None {
            None
        } else {
            Some(
                InfoView {
                    lang: w,
                    path: last_value(ts, "export"@),
                    name: last_value(ts, "name"@),
                    export: any_export(ts),
                },
            )
        },
{
    reveal_strlit(" ");
    reveal_strlit("{");
    reveal_strlit("}");
    reveal_strlit("=");
    let t = tokens_text(ts);
    assert(good_token(ts[0]));
    assert(t[0] == '{');
    assert(!t.contains('\n')) by {
        lemma_tokens_no_newline(ts);
    }
    lemma_lang_split(w, t);
    lemma_scan_tokens(ts, (false, None, None));
    lemma_last_wins(ts);
}

proof fn lemma_tokens_no_newline(ts: Seq<Token>)
    requires
        forall|i: int| 0 <= i < ts.len() ==> good_token(#[trigger] ts[i]),
    ensures
        !tokens_text(ts).contains('\n'),
    decreases ts.len(),
{
    reveal_strlit(" ");
    reveal_strlit("{");
    reveal_strlit("}");
    reveal_strlit("=");
    if ts.len() > 0 {
        let rest = ts.drop_first();
        assert forall|i: int| 0 <= i < rest.len() implies good_token(#[trigger] rest[i]) by {
            assert(rest[i] == ts[i + 1]);
        }
        lemma_tokens_no_newline(rest);
        let tok = ts[0];
        assert(good_token(tok));
        let head = token_text(tok);
        assert forall|i: int| 0 <= i < head.len() implies head[i] != '\n' by {
            if 1 <= i < 1 + tok.0.len() {
                assert(head[i] == tok.0[i - 1]);
            } else if tok.1 is Some && 2 + tok.0.len() <= i < head.len() - 1 {
                let v = tok.1->0;
                assert(head[i] == v[i - 2 - tok.0.len()]);
                if v[i - 2 - tok.0.len()] == '\n' {
                    assert(v.contains('\n'));
                }
            }
        }
        let t = tokens_text(ts);
        assert(t =~= head + " "@ + tokens_text(rest));
        assert forall|i: int| 0 <= i < t.len() implies t[i] != '\n' by {
            if i < head.len() {
                assert(t[i] == head[i]);
            } else if i > head.len() {
                assert(t[i] == tokens_text(rest)[i - head.len() - 1]);
                if tokens_text(rest)[i - head.len() - 1] == '\n' {
                    assert(tokens_text(rest).contains('\n'));
                }
            }
        }
    }
}

/// A token with the key `key` and a value.
pub open spec fn valued(t: Token, key: Seq<char>) -> bool {
    t.0 == key && t.1 is Some
}

/// At most one token has the key `key` with a value.
pub open spec fn at_most_one(ts: Seq<Token>, key: Seq<char>) -> bool {
    forall|a: int, b: int|
        0 <= a < ts.len() && 0 <= b < ts.len() && valued(#[trigger] ts[a], key) && valued(
            #[trigger] ts[b],
            key,
        ) ==> a == b
}

proof fn lemma_last_value_none(ts: Seq<Token>, key: Seq<char>)
    requires
        forall|a: int| 0 <= a < ts.len() ==> !valued(#[trigger] ts[a], key),
    ensures
        last_value(ts, key) is None,
    decreases ts.len(),
{
    if ts.len() > 0 {
        assert(!valued(ts[ts.len() - 1], key));
        assert forall|a: int| 0 <= a < ts.drop_last().len() implies !valued(
            #[trigger] ts.drop_last()[a],
            key,
        ) by {
            assert(ts.drop_last()[a] == ts[a]);
        }
        lemma_last_value_none(ts.drop_last(), key);
    }
}

proof fn lemma_last_value_one(ts: Seq<Token>, key: Seq<char>, k: int)
    requires
        0 <= k < ts.len(),
        valued(ts[k], key),
        at_most_one(ts, key),
    ensures
        last_value(ts, key) == ts[k].1,
    decreases ts.len(),
{
    let n = ts.len() - 1;
    let front = ts.drop_last();
    if k < n {
        if valued(ts[n], key) {
            assert(k == n);
        }
        assert(front[k] == ts[k]);
        assert forall|a: int, b: int|
            0 <= a < front.len() && 0 <= b < front.len() && valued(#[trigger] front[a], key)
                && valued(#[trigger] front[b], key) implies a == b by {
            assert(front[a] == ts[a] && front[b] == ts[b]);
        }
        lemma_last_value_one(front, key, k);
    }
}

proof fn lemma_swap_value(ts: Seq<Token>, i: int, j: int, key: Seq<char>)
    requires
        0 <= i < j < ts.len(),
        at_most_one(ts, key),
    ensures
        last_value(ts.update(i, ts[j]).update(j, ts[i]), key) == last_value(ts, key),
{
    let us = ts.update(i, ts[j]).update(j, ts[i]);
    let image = |x: int| if x == i { j } else if x == j { i } else { x };
    assert forall|x: int| 0 <= x < us.len() implies us[x] == ts[image(x)] by {}
    assert forall|a: int, b: int|
        0 <= a < us.len() && 0 <= b < us.len() && valued(#[trigger] us[a], key) && valued(
            #[trigger] us[b],
            key,
        ) implies a == b by {
        assert(us[a] == ts[image(a)] && us[b] == ts[image(b)]);
        assert(valued(ts[image(a)], key) && valued(ts[image(b)], key));
    }
    if exists|k: int| 0 <= k < ts.len() && valued(#[trigger] ts[k], key) {
        let k = choose|k: int| 0 <= k < ts.len() && valued(#[trigger] ts[k], key);
        lemma_last_value_one(ts, key, k);
        let m = image(k);
        assert(us[m] == ts[k]);
        lemma_last_value_one(us, key, m);
    } else {
        lemma_last_value_none(ts, key);
        assert forall|a: int| 0 <= a < us.len() implies !valued(#[trigger] us[a], key) by {
            assert(us[a] == ts[image(a)]);
            if valued(us[a], key) {
                assert(valued(ts[image(a)], key));
            }
        }
        lemma_last_value_none(us, key);
    }
}

/// Swapping two attribute tokens does not change what is parsed, where an
/// export path and a name are each given at most once; any reordering is a
/// sequence of such swaps.
pub proof fn lemma_swap_tokens(w: Seq<char>, ts: Seq<Token>, i: int, j: int)
    requires
        plain_word(w),
        forall|x: int| 0 <= x < ts.len() ==> good_token(#[trigger] ts[x]),
        0 <= i < j < ts.len(),
        at_most_one(ts, "export"@),
        at_most_one(ts, "name"@),
    ensures
        parse_info(w + " "@ + tokens_text(ts.update(i, ts[j]).update(j, ts[i]))) == parse_info(
            w + " "@ + tokens_text(ts),
        ),
{
    let us = ts.update(i, ts[j]).update(j, ts[i]);
    let image = |x: int| if x == i { j } else if x == j { i } else { x };
    assert forall|x: int| 0 <= x < us.len() implies us[x] == ts[image(x)] by {}
    assert forall|x: int| 0 <= x < us.len() implies good_token(#[trigger] us[x]) by {
        assert(us[x] == ts[image(x)]);
    }
    lemma_attribute_tokens(w, ts);
    lemma_attribute_tokens(w, us);
    lemma_swap_value(ts, i, j, "export"@);
    lemma_swap_value(ts, i, j, "name"@);
    if any_export(ts) {
        let k = choose|k: int| 0 <= k < ts.len() && (#[trigger] ts[k]).0 == "export"@;
        assert(us[image(k)] == ts[k]);
    }
    if any_export(us) {
        let k = choose|k: int| 0 <= k < us.len() && (#[trigger] us[k]).0 == "export"@;
        assert(us[k] == ts[image(k)]);
    }
}

proof fn lemma_indent_concat(ind: Seq<char>, a: Seq<Seq<char>>, b: Seq<Seq<char>>)
    ensures
        indent_all(ind, a + b) == indent_all(ind, a) + indent_all(ind, b),
{
    assert(indent_all(ind, a + b) =~= indent_all(ind, a) + indent_all(ind, b));
}

proof fn lemma_indent_twice(a: Seq<char>, b: Seq<char>, ls: Seq<Seq<char>>)
    ensures
        indent_all(a, indent_all(b, ls)) == indent_all(a + b, ls),
{
    assert forall|x: int| 0 <= x < ls.len() implies indent_all(a, indent_all(b, ls))[x]
        == indent_all(a + b, ls)[x] by {
        assert(a + (b + ls[x]) =~= (a + b) + ls[x]);
    }
    assert(indent_all(a, indent_all(b, ls)) =~= indent_all(a + b, ls));
}

/// A reference to a name that one chunk declares expands to that chunk,
/// indented like the reference.
pub proof fn lemma_one_chunk_reference(
    cs: Seq<ChunkView>,
    line: Seq<char>,
    path: Seq<Seq<char>>,
    ind: Seq<char>,
    n: Seq<char>,
    m: ChunkView,
)
    requires
        reference_of(line) == Some((ind, n)),
        !path.contains(n),
        named_group(cs, n) == Some(seq![m]),
    ensures
        expand_line(cs, line, path) == indent_all(ind, expand_lines(cs, lines_of(m.content), path.push(n))),
{
    let g = seq![m];
    assert(g[0] == m);
    assert(expand_line(cs, line, path) == expand_group(cs, g, 1, ind, path.push(n)));
}

/// Indentation accumulates through nested references: where a reference
/// indented by `ind1` names a chunk `m` whose line `inner` references, indented
/// by `ind2`, a chunk `k`, the lines of `k` come out indented by `ind1 + ind2`
/// and the other lines of `m` by `ind1`.
pub proof fn lemma_nested_indentation(
    cs: Seq<ChunkView>,
    line: Seq<char>,
    path: Seq<Seq<char>>,
    ind1: Seq<char>,
    mn: Seq<char>,
    m: ChunkView,
    before: Seq<Seq<char>>,
    inner: Seq<char>,
    after: Seq<Seq<char>>,
    ind2: Seq<char>,
    kn: Seq<char>,
    k: ChunkView,
)
    requires
        reference_of(line) == Some((ind1, mn)),
        !path.contains(mn),
        named_group(cs, mn) == Some(seq![m]),
        lines_of(m.content) == before + seq![inner] + after,
        reference_of(inner) == Some((ind2, kn)),
        !path.push(mn).contains(kn),
        named_group(cs, kn) == Some(seq![k]),
    ensures
        expand_line(cs, line, path) == indent_all(ind1, expand_lines(cs, before, path.push(mn)))
            + indent_all(ind1 + ind2, expand_lines(cs, lines_of(k.content), path.push(mn).push(kn)))
            + indent_all(ind1, expand_lines(cs, after, path.push(mn))),
{
    let p1 = path.push(mn);
    lemma_one_chunk_reference(cs, line, path, ind1, mn, m);
    lemma_one_chunk_reference(cs, inner, p1, ind2, kn, k);
    lemma_expand_concat(cs, before + seq![inner], after, p1);
    lemma_expand_concat(cs, before, seq![inner], p1);
    assert(seq![inner].drop_last() =~= Seq::<Seq<char>>::empty());
    assert(expand_lines(cs, seq![inner].drop_last(), p1) =~= Seq::<Seq<char>>::empty());
    assert(expand_lines(cs, seq![inner], p1) =~= expand_line(cs, inner, p1));
    let eb = expand_lines(cs, before, p1);
    let ek = expand_lines(cs, lines_of(k.content), p1.push(kn));
    let ea = expand_lines(cs, after, p1);
    lemma_indent_concat(ind1, eb + indent_all(ind2, ek), ea);
    lemma_indent_concat(ind1, eb, indent_all(ind2, ek));
    lemma_indent_twice(ind1, ind2, ek);
}

/// An output made of one exported chunk, free of references, ending with a
/// line break and without carriage returns, holds that chunk's text unchanged
/// under its destination.
pub proof fn lemma_one_plain_export(all: Seq<ChunkView>, c: ChunkView, base: Seq<char>)
    requires
        c.info.export,
        forall|x: int|
            0 <= x < lines_of(c.content).len() ==> #[trigger] reference_of(lines_of(c.content)[x])
                is None,
        c.content.len() > 0,
        c.content.last() == '\n',
        !c.content.contains('\r'),
    ensures
        aggregate(all, seq![c], base) == seq![(normal_path(join_path(base, export_path(c))), c.content)],
{
    lemma_plain_chunk(all, c);
    assert(seq![c].drop_last() =~= Seq::<ChunkView>::empty());
    assert(aggregate(all, seq![c].drop_last(), base) == Seq::<(Seq<char>, Seq<char>)>::empty());
    assert(seq![c].last() == c);
}

/// The expansion measure never exceeds the number of chunks. Each nested
/// expansion lowers it by at least one (`lemma_unvisited_push`), so nesting
/// is at most as deep as there are chunks, cycles included.
pub proof fn lemma_depth_bound(cs: Seq<ChunkView>, path: Seq<Seq<char>>)
    ensures
        unvisited(declared_names(cs), path) <= cs.len(),
{
    lemma_unvisited_at_most(declared_names(cs), path);
}

proof fn lemma_unvisited_at_most(names: Seq<Seq<char>>, path: Seq<Seq<char>>)
    ensures
        unvisited(names, path) <= names.len(),
    decreases names.len(),
{
    if names.len() > 0 {
        lemma_unvisited_at_most(names.drop_last(), path);
    }
}

/// The disk right after writing an output map: every file holds its text.
pub open spec fn written(m: OutView) -> Seq<DiskView> {
    m.map_values(|e: (Seq<char>, Seq<char>)| DiskView::Found(e.1))
}

/// Comparing an output map with the files it was just written to finds no
/// difference.
pub proof fn lemma_written_in_sync(m: OutView, k: int)
    requires
        0 <= k <= m.len(),
    ensures
        sync_diffs(m, written(m), k) == Seq::<Difference>::empty(),
    decreases k,
{
    if k > 0 {
        lemma_written_in_sync(m, k - 1);
        assert(written(m)[k - 1] == DiskView::Found(m[k - 1].1));
    }
}

} // verus!
