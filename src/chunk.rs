//! The chunk model and the index of chunks by declared name.
use vstd::prelude::*;

verus! {

/// The attributes of a fenced block that is kept as a chunk.
#[derive(Debug, PartialEq)]
pub struct ChunkInfo {
    pub lang: String,
    pub path: Option<String>,
    pub name: Option<String>,
    pub export: bool,
}

/// A chunk: its attributes and the literal text of its block.
#[derive(Debug, PartialEq)]
pub struct Chunk {
    pub info: ChunkInfo,
    pub content: String,
}

pub struct InfoView {
    pub lang: Seq<char>,
    pub path: Option<Seq<char>>,
    pub name: Option<Seq<char>>,
    pub export: bool,
}

pub struct ChunkView {
    pub info: InfoView,
    pub content: Seq<char>,
}

pub open spec fn opt_view(o: Option<String>) -> Option<Seq<char>> {
    match o {
        Some(s) => Some(s@),
        None => None,
    }
}

impl View for ChunkInfo {
    type V = InfoView;

    open spec fn view(&self) -> InfoView {
        InfoView {
            lang: self.lang@,
            path: opt_view(self.path),
            name: opt_view(self.name),
            export: self.export,
        }
    }
}

impl View for Chunk {
    type V = ChunkView;

    open spec fn view(&self) -> ChunkView {
        ChunkView { info: self.info@, content: self.content@ }
    }
}

pub fn copy_opt(o: &Option<String>) -> (r: Option<String>)
    ensures
        r == *o,
{
    match o {
        Some(s) => Some(s.clone()),
        None => None,
    }
}

impl ChunkInfo {
    pub fn duplicate(&self) -> (r: ChunkInfo)
        ensures
            r == *self,
    {
        ChunkInfo {
            lang: self.lang.clone(),
            path: copy_opt(&self.path),
            name: copy_opt(&self.name),
            export: self.export,
        }
    }
}

impl Chunk {
    pub fn duplicate(&self) -> (r: Chunk)
        ensures
            r == *self,
    {
        Chunk { info: self.info.duplicate(), content: self.content.clone() }
    }
}

/// The chunks of `cs` declared under the name `n`, in order.
pub open spec fn group_of(cs: Seq<ChunkView>, n: Seq<char>) -> Seq<ChunkView>
    decreases cs.len(),
{
    if cs.len() == 0 {
        seq![]
    } else {
        group_of(cs.drop_last(), n) + if cs.last().info.name == Some(n) {
            seq![cs.last()]
        } else {
            seq![]
        }
    }
}

/// The group of chunks declared under `n`, where there is one.
pub open spec fn named_group(cs: Seq<ChunkView>, n: Seq<char>) -> Option<Seq<ChunkView>> {
    if group_of(cs, n).len() > 0 {
        Some(group_of(cs, n))
    } else {
        None
    }
}

/// The declared name of each chunk, with the empty name for an unnamed one.
pub open spec fn declared_names(cs: Seq<ChunkView>) -> Seq<Seq<char>> {
    cs.map_values(|c: ChunkView| match c.info.name {
        Some(n) => n,
        None => seq![],
    })
}

pub proof fn lemma_group_declared(cs: Seq<ChunkView>, n: Seq<char>)
    ensures
        group_of(cs, n).len() > 0 ==> declared_names(cs).contains(n),
    decreases cs.len(),
{
    if cs.len() > 0 {
        lemma_group_declared(cs.drop_last(), n);
        if cs.last().info.name == Some(n) {
            assert(declared_names(cs)[cs.len() - 1] == n);
        } else if group_of(cs, n).len() > 0 {
            assert(group_of(cs, n) =~= group_of(cs.drop_last(), n));
            let k = choose|k: int| 0 <= k < declared_names(cs.drop_last()).len()
                && declared_names(cs.drop_last())[k] == n;
            assert(declared_names(cs)[k] == n);
        }
    }
}

/// Chunks grouped by declared name: each name once, with its chunks in order.
pub struct NamedChunks {
    entries: Vec<(String, Vec<Chunk>)>,
    source: Ghost<Seq<ChunkView>>,
}

/// The position of the entry named `n`, or the number of entries where there is none.
fn find_entry(entries: &Vec<(String, Vec<Chunk>)>, n: &String) -> (r: usize)
    ensures
        r <= entries@.len(),
        r < entries@.len() ==> entries@[r as int].0@ == n@,
        forall|a: int| 0 <= a < r ==> entries@[a].0@ != n@,
{
    let mut j: usize = 0;
    while j < entries.len()
        invariant
            j <= entries@.len(),
            forall|a: int| 0 <= a < j ==> entries@[a].0@ != n@,
        decreases entries@.len() - j,
    {
        if entries[j].0 == *n {
            return j;
        }
        j = j + 1;
    }
    j
}

impl NamedChunks {
    /// The chunks this index was built from, in order.
    pub closed spec fn chunks(&self) -> Seq<ChunkView> {
        self.source@
    }

    /// Each entry holds the group of its name; names are distinct, and every
    /// declared name has an entry.
    pub closed spec fn well_formed(&self) -> bool {
        &&& forall|a: int, b: int|
            0 <= a < b < self.entries@.len() ==> self.entries@[a].0@ != self.entries@[b].0@
        &&& forall|a: int| 0 <= a < self.entries@.len() ==> self.entries@[a].1@.len() > 0
        &&& forall|a: int|
            0 <= a < self.entries@.len() ==> self.entries@[a].1@.map_values(|c: Chunk| c@)
                == group_of(self.source@, self.entries@[a].0@)
        &&& forall|n: Seq<char>|
            #![trigger group_of(self.source@, n)]
            group_of(self.source@, n).len() > 0 ==> exists|a: int|
                0 <= a < self.entries@.len() && self.entries@[a].0@ == n
    }

    /// The chunks declared under `name`, if any.
    pub fn get(&self, name: &String) -> (r: Option<&Vec<Chunk>>)
        requires
            self.well_formed(),
        ensures
            match r {
                Some(g) => named_group(self.chunks(), name@) == Some(g@.map_values(|c: Chunk| c@)),
                None => named_group(self.chunks(), name@) is None,
            },
    {
        let i = find_entry(&self.entries, name);
        if i < self.entries.len() {
            assert(self.entries@[i as int].1@.map_values(|c: Chunk| c@).len() > 0);
            return Some(&self.entries[i].1);
        }
        None
    }
}

/// Groups chunks by declared name. Every name that some chunk declares gets
/// exactly the chunks that declare it, in their order; unnamed chunks are left out.
pub fn create_named_chunk_map(chunks: &[Chunk]) -> (r: NamedChunks)
    ensures
        r.well_formed(),
        r.chunks() == chunks@.map_values(|c: Chunk| c@),
{
    let ghost cs = chunks@.map_values(|c: Chunk| c@);
    let mut entries: Vec<(String, Vec<Chunk>)> = Vec::new();
    let mut i: usize = 0;
    while i < chunks.len()
        invariant
            i <= chunks@.len(),
            cs == chunks@.map_values(|c: Chunk| c@),
            forall|a: int, b: int|
                0 <= a < b < entries@.len() ==> entries@[a].0@ != entries@[b].0@,
            forall|a: int| 0 <= a < entries@.len() ==> entries@[a].1@.len() > 0,
            forall|a: int|
                0 <= a < entries@.len() ==> entries@[a].1@.map_values(|c: Chunk| c@)
                    == group_of(cs.take(i as int), entries@[a].0@),
            forall|n: Seq<char>|
                #![trigger group_of(cs.take(i as int), n)]
                group_of(cs.take(i as int), n).len() > 0 ==> exists|a: int|
                    0 <= a < entries@.len() && entries@[a].0@ == n,
        decreases chunks@.len() - i,
    {
        let ghost pre = cs.take(i as int);
        let ghost post = cs.take(i as int + 1);
        assert(post.drop_last() =~= pre);
        let c = &chunks[i];
        assert(post.last() == c@);
        match &c.info.name {
            None => {
                assert forall|n: Seq<char>| group_of(post, n) == group_of(pre, n) by {
                    assert(group_of(post, n) =~= group_of(pre, n));
                }
            },
            Some(n) => {
                let j = find_entry(&entries, n);
                let ghost old_entries = entries@;
                if j == entries.len() {
                    entries.push((n.clone(), Vec::new()));
                    assert(group_of(pre, n@).len() == 0);
                    assert(group_of(pre, n@) =~= Seq::<ChunkView>::empty());
                    assert(entries@[j as int].1@.map_values(|c: Chunk| c@) =~= group_of(pre, n@));
                }
                let ghost e_before = entries@;
                assert(entries@[j as int].1@.map_values(|c: Chunk| c@) == group_of(pre, n@));
                let (name, mut group) = entries.remove(j);
                group.push(c.duplicate());
                assert(group@.map_values(|c: Chunk| c@) =~= group_of(pre, n@).push(c@));
                assert(group_of(post, n@) =~= group_of(pre, n@).push(c@));
                entries.insert(j, (name, group));
                assert(entries@ =~= e_before.update(j as int, (name, group)));
                assert forall|m: Seq<char>| m != n@ implies group_of(post, m) == group_of(pre, m) by {
                    assert(group_of(post, m) =~= group_of(pre, m));
                }
                assert(entries@[j as int].1@.map_values(|c: Chunk| c@) =~= group_of(post, n@));
                assert forall|m: Seq<char>| #[trigger] group_of(post, m).len() > 0 implies exists|a: int|
                    0 <= a < entries@.len() && entries@[a].0@ == m by {
                    if m == n@ {
                        assert(entries@[j as int].0@ == m);
                    } else {
                        let a = choose|a: int| 0 <= a < old_entries.len() && old_entries[a].0@ == m;
                        assert(entries@[a].0@ == m);
                    }
                }
            },
        }
        i = i + 1;
    }
    assert(cs.take(i as int) =~= cs);
    NamedChunks { entries, source: Ghost(cs) }
}

} // verus!
