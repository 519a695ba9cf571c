//! Aggregation of exported expansions per destination file, and the comparison
//! of an aggregate with what is on disk.
use vstd::prelude::*;
use crate::paths::{join_path, normal_path, join_paths, normalize_path};
use crate::chunk::{Chunk, ChunkView, NamedChunks, create_named_chunk_map};
use crate::expand::{expansion, expansion_missing};
use crate::extract::{extract_chunks, extract_state, markdown_blocks, chunks_view, BlockView};

verus! {

/// Destination paths with their accumulated text.
pub type OutView = Seq<(Seq<char>, Seq<char>)>;

/// `m` with `t` appended to the text of `p`, which is added at the end if new.
pub open spec fn add_output(m: OutView, p: Seq<char>, t: Seq<char>) -> OutView
    decreases m.len(),
{
    if m.len() == 0 {
        seq![(p, t)]
    } else if m[0].0 == p {
        m.update(0, (p, m[0].1 + t))
    } else {
        seq![m[0]] + add_output(m.drop_first(), p, t)
    }
}

/// The export path of a chunk.
pub open spec fn export_path(c: ChunkView) -> Seq<char> {
    match c.info.path {
        Some(p) => p,
        None => seq![],
    }
}

/// The output of the exported chunks among `cs`, in order, each expanded
/// against `all` and appended to the text of its destination.
pub open spec fn aggregate(all: Seq<ChunkView>, cs: Seq<ChunkView>, base: Seq<char>) -> OutView
    decreases cs.len(),
{
    if cs.len() == 0 {
        seq![]
    } else {
        let m = aggregate(all, cs.drop_last(), base);
        let c = cs.last();
        if c.info.export {
            add_output(m, normal_path(join_path(base, export_path(c))), expansion(all, c))
        } else {
            m
        }
    }
}

/// Every exported chunk has an export path.
pub open spec fn paths_given(cs: Seq<ChunkView>) -> bool {
    forall|i: int| 0 <= i < cs.len() && cs[i].info.export ==> cs[i].info.path is Some
}

/// The files to generate: each destination path once, with its text; and
/// whether some generated text holds a diagnostic for a name that no chunk
/// declares.
pub struct OutputMap {
    pub entries: Vec<(String, String)>,
    pub unresolved: bool,
}

/// Whether the expansion of some exported chunk among `cs` holds a diagnostic
/// for a name that no chunk of `all` declares.
pub open spec fn unresolved_in(all: Seq<ChunkView>, cs: Seq<ChunkView>) -> bool {
    exists|i: int| 0 <= i < cs.len() && cs[i].info.export && #[trigger] expansion_missing(all, cs[i])
}

impl View for OutputMap {
    type V = OutView;

    open spec fn view(&self) -> OutView {
        self.entries@.map_values(|e: (String, String)| (e.0@, e.1@))
    }
}

proof fn lemma_add_found(m: OutView, p: Seq<char>, t: Seq<char>, j: int)
    requires
        0 <= j < m.len(),
        m[j].0 == p,
        forall|a: int| 0 <= a < j ==> m[a].0 != p,
    ensures
        add_output(m, p, t) == m.update(j, (p, m[j].1 + t)),
    decreases m.len(),
{
    if j > 0 {
        lemma_add_found(m.drop_first(), p, t, j - 1);
        assert(add_output(m, p, t) =~= m.update(j, (p, m[j].1 + t)));
    }
}

proof fn lemma_add_absent(m: OutView, p: Seq<char>, t: Seq<char>)
    requires
        forall|a: int| 0 <= a < m.len() ==> m[a].0 != p,
    ensures
        add_output(m, p, t) == m.push((p, t)),
    decreases m.len(),
{
    if m.len() > 0 {
        lemma_add_absent(m.drop_first(), p, t);
        assert(add_output(m, p, t) =~= m.push((p, t)));
    } else {
        assert(add_output(m, p, t) =~= m.push((p, t)));
    }
}

impl OutputMap {
    /// Appends `text` to the entry of `path`, adding the entry if it is new.
    pub fn add(&mut self, path: String, text: &String)
        ensures
            final(self)@ == add_output(old(self)@, path@, text@),
            final(self).unresolved == old(self).unresolved,
    {
        let ghost m = self@;
        let mut j: usize = 0;
        while j < self.entries.len()
            invariant
                m == self@,
                m == old(self)@,
                self.unresolved == old(self).unresolved,
                j <= self.entries@.len(),
                forall|a: int| 0 <= a < j ==> m[a].0 != path@,
            decreases self.entries@.len() - j,
        {
            if self.entries[j].0 == path {
                proof {
                    lemma_add_found(m, path@, text@, j as int);
                }
                let (p, mut t) = self.entries.remove(j);
                t.append(text.as_str());
                self.entries.insert(j, (p, t));
                assert(self@ =~= m.update(j as int, (path@, m[j as int].1 + text@)));
                return;
            }
            j = j + 1;
        }
        proof {
            lemma_add_absent(m, path@, text@);
        }
        self.entries.push((path, text.clone()));
        assert(self@ =~= m.push((path@, text@)));
    }
}

/// Expands each exported chunk against the index and gathers the results by
/// destination: `base` joined with the chunk's export path, in the spelling
/// kept for paths with the same components.
pub fn output_map_from_chunks(chunks: &Vec<Chunk>, named: &NamedChunks, base: &String) -> (r: OutputMap)
    requires
        named.well_formed(),
        paths_given(chunks_view(chunks@)),
    ensures
        r@ == aggregate(named.chunks(), chunks_view(chunks@), base@),
        r.unresolved == unresolved_in(named.chunks(), chunks_view(chunks@)),
{
    let ghost cs = chunks_view(chunks@);
    let mut out = OutputMap { entries: Vec::new(), unresolved: false };
    let mut i: usize = 0;
    assert(out@ =~= aggregate(named.chunks(), cs.take(0), base@));
    while i < chunks.len()
        invariant
            named.well_formed(),
            cs == chunks_view(chunks@),
            paths_given(cs),
            out.unresolved == unresolved_in(named.chunks(), cs.take(i as int)),
            i <= chunks@.len(),
            out@ == aggregate(named.chunks(), cs.take(i as int), base@),
        decreases chunks@.len() - i,
    {
        assert(cs.take(i as int + 1).drop_last() =~= cs.take(i as int));
        let c = &chunks[i];
        assert(cs.take(i as int + 1).last() == c@);
        let ghost pre = cs.take(i as int);
        let ghost post = cs.take(i as int + 1);
        assert forall|x: int| 0 <= x < pre.len() implies post[x] == pre[x] by {}
        if c.info.export {
            assert(cs[i as int].info.export);
            let (text, missed) = c.expand_checked(named);
            if missed {
                assert(post[i as int] == c@);
            }
            let ghost was = out.unresolved;
            out.unresolved = out.unresolved || missed;
            proof {
                if was {
                    let x = choose|x: int|
                        0 <= x < pre.len() && pre[x].info.export && #[trigger] expansion_missing(
                            named.chunks(),
                            pre[x],
                        );
                    assert(post[x] == pre[x]);
                }
            }
            assert(out.unresolved == unresolved_in(named.chunks(), post)) by {
                if unresolved_in(named.chunks(), post) {
                    let x = choose|x: int| 0 <= x < post.len() && post[x].info.export && #[trigger] expansion_missing(named.chunks(), post[x]);
                    if x < pre.len() {
                        assert(pre[x] == post[x]);
                    }
                }
            }
            match &c.info.path {
                Some(p) => {
                    let dest = normalize_path(&join_paths(base, p));
                    out.add(dest, &text);
                },
                None => {},
            }
        } else {
            assert(out.unresolved == unresolved_in(named.chunks(), post)) by {
                if unresolved_in(named.chunks(), post) {
                    let x = choose|x: int| 0 <= x < post.len() && post[x].info.export && #[trigger] expansion_missing(named.chunks(), post[x]);
                    assert(x < pre.len());
                    assert(pre[x] == post[x]);
                }
                if unresolved_in(named.chunks(), pre) {
                    let x = choose|x: int| 0 <= x < pre.len() && pre[x].info.export && #[trigger] expansion_missing(named.chunks(), pre[x]);
                    assert(post[x] == pre[x]);
                }
            }
        }
        i = i + 1;
    }
    assert(cs.take(i as int) =~= cs);
    out
}

/// A Markdown document: its text, and the stem of its file name.
pub struct Document {
    pub text: String,
    pub stem: String,
}

/// The chunks of documents `docs`, document after document.
pub open spec fn all_chunks(docs: Seq<(Seq<char>, Seq<char>)>) -> Seq<ChunkView>
    decreases docs.len(),
{
    if docs.len() == 0 {
        seq![]
    } else {
        all_chunks(docs.drop_last()) + extract_state(markdown_blocks(docs.last().0), docs.last().1).0
    }
}

pub proof fn lemma_extracted_paths(bs: Seq<BlockView>, stem: Seq<char>)
    ensures
        paths_given(extract_state(bs, stem).0),
    decreases bs.len(),
{
    if bs.len() > 0 {
        lemma_extracted_paths(bs.drop_last(), stem);
        let cs = extract_state(bs.drop_last(), stem).0;
        let r = extract_state(bs, stem).0;
        assert forall|i: int| 0 <= i < r.len() && r[i].info.export implies r[i].info.path is Some by {
            if i < cs.len() {
                assert(r[i].info == cs[i].info);
            }
        }
    }
}

/// Extracts the chunks of all documents, indexes them by name, and aggregates
/// the expansions of the exported ones by destination under `base`.
pub fn generate_output_map(docs: &Vec<Document>, base: &String) -> (r: OutputMap)
    ensures
        r@ == ({
            let all = all_chunks(docs@.map_values(|d: Document| (d.text@, d.stem@)));
            aggregate(all, all, base@)
        }),
        r.unresolved == unresolved_in(
            all_chunks(docs@.map_values(|d: Document| (d.text@, d.stem@))),
            all_chunks(docs@.map_values(|d: Document| (d.text@, d.stem@))),
        ),
{
    let ghost ds = docs@.map_values(|d: Document| (d.text@, d.stem@));
    let mut chunks: Vec<Chunk> = Vec::new();
    let mut i: usize = 0;
    assert(chunks_view(chunks@) =~= all_chunks(ds.take(0)));
    while i < docs.len()
        invariant
            i <= docs@.len(),
            ds == docs@.map_values(|d: Document| (d.text@, d.stem@)),
            chunks_view(chunks@) == all_chunks(ds.take(i as int)),
            paths_given(chunks_view(chunks@)),
        decreases docs@.len() - i,
    {
        assert(ds.take(i as int + 1).drop_last() =~= ds.take(i as int));
        let d = &docs[i];
        let mut found = extract_chunks(d.text.as_str(), d.stem.as_str());
        proof {
            lemma_extracted_paths(markdown_blocks(d.text@), d.stem@);
        }
        let ghost before = chunks_view(chunks@);
        chunks.append(&mut found);
        assert(chunks_view(chunks@) =~= all_chunks(ds.take(i as int + 1)));
        i = i + 1;
    }
    assert(ds.take(i as int) =~= ds);
    let named = create_named_chunk_map(chunks.as_slice());
    output_map_from_chunks(&chunks, &named, base)
}

/// What reading a destination file gave.
pub enum DiskState {
    Found(String),
    Missing,
    Unreadable,
}

pub enum DiskView {
    Found(Seq<char>),
    Missing,
    Unreadable,
}

impl View for DiskState {
    type V = DiskView;

    open spec fn view(&self) -> DiskView {
        match self {
            DiskState::Found(s) => DiskView::Found(s@),
            DiskState::Missing => DiskView::Missing,
            DiskState::Unreadable => DiskView::Unreadable,
        }
    }
}

/// How a destination file differs from its generated text.
#[derive(Debug, Clone, Copy, PartialEq, Eq, Structural)]
pub enum DiffKind {
    Mismatch,
    Missing,
    Unreadable,
}

/// A difference found at the entry `index` of an output map.
#[derive(Debug, Clone, Copy, PartialEq, Eq, Structural)]
pub struct Difference {
    pub index: usize,
    pub kind: DiffKind,
}

/// The difference between generated text and what reading its file gave.
pub open spec fn diff_of(content: Seq<char>, d: DiskView) -> Option<DiffKind> {
    match d {
        DiskView::Found(s) => if s == content {
            None
        } else {
            Some(DiffKind::Mismatch)
        },
        DiskView::Missing => Some(DiffKind::Missing),
        DiskView::Unreadable => Some(DiffKind::Unreadable),
    }
}

/// The differences among the first `k` entries, in order.
pub open spec fn sync_diffs(m: OutView, d: Seq<DiskView>, k: int) -> Seq<Difference>
    decreases k,
{
    if k <= 0 {
        seq![]
    } else {
        let prev = sync_diffs(m, d, k - 1);
        match diff_of(m[k - 1].1, d[k - 1]) {
            None => prev,
            Some(kind) => prev.push(Difference { index: (k - 1) as usize, kind }),
        }
    }
}

pub open spec fn disk_view(d: Seq<DiskState>) -> Seq<DiskView> {
    d.map_values(|s: DiskState| s@)
}

/// Compares each generated text with what reading its file gave (`disk`, one
/// per entry, in order) and lists the differences.
pub fn compare_outputs(map: &OutputMap, disk: &Vec<DiskState>) -> (r: Vec<Difference>)
    requires
        disk@.len() == map.entries@.len(),
    ensures
        r@ == sync_diffs(map@, disk_view(disk@), map@.len() as int),
{
    let mut r: Vec<Difference> = Vec::new();
    let mut i: usize = 0;
    while i < disk.len()
        invariant
            disk@.len() == map.entries@.len(),
            i <= disk@.len(),
            r@ == sync_diffs(map@, disk_view(disk@), i as int),
        decreases disk@.len() - i,
    {
        let ghost dv = disk_view(disk@);
        assert(dv[i as int] == disk@[i as int]@);
        assert(map@[i as int].1 == map.entries@[i as int].1@);
        match &disk[i] {
            DiskState::Found(s) => {
                if *s != map.entries[i].1 {
                    r.push(Difference { index: i, kind: DiffKind::Mismatch });
                }
            },
            DiskState::Missing => {
                r.push(Difference { index: i, kind: DiffKind::Missing });
            },
            DiskState::Unreadable => {
                r.push(Difference { index: i, kind: DiffKind::Unreadable });
            },
        }
        i = i + 1;
    }
    r
}

} // verus!
