//! Destination paths: joining onto a base directory, and the one spelling kept
//! for paths with the same components.
use vstd::prelude::*;
use crate::text::{chars_of, string_of};

verus! {

/// `p` resolved against the directory `base`; an absolute `p` stands alone.
pub open spec fn join_path(base: Seq<char>, p: Seq<char>) -> Seq<char> {
    if (p.len() > 0 && p[0] == '/') || base.len() == 0 {
        p
    } else if base.last() == '/' {
        base + p
    } else {
        base + seq!['/'] + p
    }
}

/// The finished pieces between `/` separators and the open piece after reading `s`.
pub open spec fn piece_state(s: Seq<char>) -> (Seq<Seq<char>>, Seq<char>)
    decreases s.len(),
{
    if s.len() == 0 {
        (seq![], seq![])
    } else {
        let (done, open) = piece_state(s.drop_last());
        if s.last() == '/' {
            (done.push(open), seq![])
        } else {
            (done, open.push(s.last()))
        }
    }
}

/// The pieces of `s` between `/` separators, empty ones included.
pub open spec fn pieces(s: Seq<char>) -> Seq<Seq<char>> {
    piece_state(s).0.push(piece_state(s).1)
}

/// A piece that names a component: not empty, and not a `.` after the first piece.
pub open spec fn is_component(ps: Seq<Seq<char>>, i: int) -> bool {
    ps[i].len() > 0 && !(i > 0 && ps[i] == seq!['.'])
}

/// The components among the first `k` pieces, in order.
pub open spec fn components(ps: Seq<Seq<char>>, k: int) -> Seq<Seq<char>>
    decreases k,
{
    if k <= 0 {
        seq![]
    } else {
        components(ps, k - 1) + if is_component(ps, k - 1) {
            seq![ps[k - 1]]
        } else {
            seq![]
        }
    }
}

/// The parts joined with `/` between two of them.
pub open spec fn join_slash(parts: Seq<Seq<char>>) -> Seq<char>
    decreases parts.len(),
{
    if parts.len() == 0 {
        seq![]
    } else if parts.len() == 1 {
        parts[0]
    } else {
        join_slash(parts.drop_last()) + seq!['/'] + parts.last()
    }
}

/// The spelling kept for a path: a leading `/` if any, then its components
/// joined by single `/`; repeated separators, `.` components after the first
/// and a trailing `/` are left out.
pub open spec fn normal_path(s: Seq<char>) -> Seq<char> {
    let root: Seq<char> = if s.len() > 0 && s[0] == '/' {
        seq!['/']
    } else {
        seq![]
    };
    root + join_slash(components(pieces(s), pieces(s).len() as int))
}

pub open spec fn parts_view(v: Vec<Vec<char>>) -> Seq<Seq<char>> {
    v@.map_values(|l: Vec<char>| l@)
}

proof fn lemma_parts_push(s: Seq<Vec<char>>, x: Vec<char>)
    ensures
        s.push(x).map_values(|l: Vec<char>| l@) == s.map_values(|l: Vec<char>| l@).push(x@),
{
    assert(s.push(x).map_values(|l: Vec<char>| l@) =~= s.map_values(|l: Vec<char>| l@).push(x@));
}

fn split_pieces(s: &Vec<char>) -> (r: Vec<Vec<char>>)
    ensures
        parts_view(r) == pieces(s@),
{
    let mut done: Vec<Vec<char>> = Vec::new();
    let mut open: Vec<char> = Vec::new();
    let mut i: usize = 0;
    assert(parts_view(done) =~= piece_state(s@.take(0)).0);
    assert(open@ =~= piece_state(s@.take(0)).1);
    while i < s.len()
        invariant
            i <= s@.len(),
            parts_view(done) == piece_state(s@.take(i as int)).0,
            open@ == piece_state(s@.take(i as int)).1,
        decreases s@.len() - i,
    {
        assert(s@.take(i as int + 1).drop_last() =~= s@.take(i as int));
        if s[i] == '/' {
            proof {
                lemma_parts_push(done@, open);
            }
            done.push(open);
            open = Vec::new();
            assert(open@ =~= piece_state(s@.take(i as int + 1)).1);
        } else {
            open.push(s[i]);
        }
        i = i + 1;
    }
    assert(s@.take(i as int) =~= s@);
    proof {
        lemma_parts_push(done@, open);
    }
    done.push(open);
    done
}

/// The spelling kept for the path `p`.
pub fn normalize_path(p: &String) -> (r: String)
    ensures
        r@ == normal_path(p@),
{
    let s = chars_of(p.as_str());
    let ps = split_pieces(&s);
    let ghost pv = parts_view(ps);
    let mut kept: Vec<Vec<char>> = Vec::new();
    let mut i: usize = 0;
    assert(parts_view(kept) =~= components(pv, 0));
    while i < ps.len()
        invariant
            i <= ps@.len(),
            pv == parts_view(ps),
            parts_view(kept) == components(pv, i as int),
        decreases ps@.len() - i,
    {
        let piece = &ps[i];
        assert(pv[i as int] == piece@);
        let dot = piece.len() == 1 && piece[0] == '.';
        assert(dot == (piece@ == seq!['.'])) by {
            if piece@.len() == 1 && piece@[0] == '.' {
                assert(piece@ =~= seq!['.']);
            }
        }
        if piece.len() > 0 && !(i > 0 && dot) {
            let mut copy: Vec<char> = Vec::new();
            let mut j: usize = 0;
            while j < piece.len()
                invariant
                    j <= piece@.len(),
                    copy@ == piece@.take(j as int),
                decreases piece@.len() - j,
            {
                copy.push(piece[j]);
                j = j + 1;
                assert(copy@ =~= piece@.take(j as int));
            }
            assert(piece@.take(j as int) =~= piece@);
            proof {
                lemma_parts_push(kept@, copy);
            }
            kept.push(copy);
            assert(parts_view(kept) =~= components(pv, i as int + 1));
        } else {
            assert(parts_view(kept) =~= components(pv, i as int + 1));
        }
        i = i + 1;
    }
    let mut out: Vec<char> = Vec::new();
    if s.len() > 0 && s[0] == '/' {
        out.push('/');
    }
    let ghost root = out@;
    let ghost kv = parts_view(kept);
    let mut k: usize = 0;
    assert(kv.take(0) =~= Seq::<Seq<char>>::empty());
    while k < kept.len()
        invariant
            k <= kept@.len(),
            kv == parts_view(kept),
            out@ == root + join_slash(kv.take(k as int)),
        decreases kept@.len() - k,
    {
        assert(kv.take(k as int + 1).drop_last() =~= kv.take(k as int));
        assert(kv.take(k as int + 1).last() == kept@[k as int]@);
        let ghost before = out@;
        if k > 0 {
            out.push('/');
        }
        let part = &kept[k];
        let ghost mid = out@;
        let mut j: usize = 0;
        while j < part.len()
            invariant
                j <= part@.len(),
                out@ == mid + part@.take(j as int),
            decreases part@.len() - j,
        {
            out.push(part[j]);
            j = j + 1;
            assert(out@ =~= mid + part@.take(j as int));
        }
        assert(part@.take(j as int) =~= part@);
        if k == 0 {
            assert(kv.take(1) =~= seq![kept@[0]@]);
            assert(out@ =~= root + join_slash(kv.take(1)));
        } else {
            assert(out@ =~= root + join_slash(kv.take(k as int + 1)));
        }
        k = k + 1;
    }
    assert(kv.take(k as int) =~= kv);
    string_of(&out)
}

/// `p` joined onto `base`.
pub fn join_paths(base: &String, p: &String) -> (r: String)
    ensures
        r@ == join_path(base@, p@),
{
    let b = chars_of(base.as_str());
    let q = chars_of(p.as_str());
    if (q.len() > 0 && q[0] == '/') || b.len() == 0 {
        return p.clone();
    }
    let mut r = base.clone();
    if b[b.len() - 1] != '/' {
        r.append("/");
        assert(r@ =~= base@ + seq!['/']) by {
            reveal_strlit("/");
        }
    }
    r.append(p.as_str());
    r
}

} // verus!
