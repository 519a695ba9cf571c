//! Gathering the chunks of one Markdown document.
use vstd::prelude::*;
use pulldown_cmark::{CodeBlockKind, Event, Parser, Tag};
use crate::text::{chars_of, string_of, same_text};
use crate::chunk::{Chunk, ChunkView, InfoView};
use crate::info::{parse_info, parse_info_string};

verus! {

/// What the chunk extractor reads of a Markdown event.
pub enum Block {
    /// The start of a fenced code block, with its info string.
    Fence(String),
    /// Literal text.
    Text(String),
    /// The end of any element.
    End,
    /// Any other event.
    Other,
}

pub enum BlockView {
    Fence(Seq<char>),
    Text(Seq<char>),
    End,
    Other,
}

impl View for Block {
    type V = BlockView;

    open spec fn view(&self) -> BlockView {
        match self {
            Block::Fence(s) => BlockView::Fence(s@),
            Block::Text(s) => BlockView::Text(s@),
            Block::End => BlockView::End,
            Block::Other => BlockView::Other,
        }
    }
}

/// The events that pulldown-cmark's parser yields for a document, as blocks.
pub uninterp spec fn markdown_blocks(text: Seq<char>) -> Seq<BlockView>;

/// Relies on `pulldown_cmark::Parser`: the events of a document, in order,
/// which depend on the text alone.
#[verifier::external_body]
fn blocks_of(text: &str) -> (r: Vec<Block>)
    ensures
        r@.map_values(|b: Block| b@) == markdown_blocks(text@),
{
    Parser::new(text).map(|e| match e {
        Event::Start(Tag::CodeBlock(CodeBlockKind::Fenced(info))) => Block::Fence(info.to_string()),
        Event::Text(t) => Block::Text(t.to_string()),
        Event::End(_) => Block::End,
        _ => Block::Other,
    }).collect()
}

/// The file extension for a language; unknown languages get `txt`.
pub open spec fn extension_in(table: Seq<(Seq<char>, Seq<char>)>, lang: Seq<char>) -> Seq<char>
    decreases table.len(),
{
    if table.len() == 0 {
        "txt"@
    } else if table[0].0 == lang {
        table[0].1
    } else {
        extension_in(table.drop_first(), lang)
    }
}

pub open spec fn extension_table() -> Seq<(Seq<char>, Seq<char>)> {
    seq![
        ("python"@, "py"@), ("javascript"@, "js"@), ("java"@, "java"@), ("csharp"@, "cs"@),
        ("cpp"@, "cpp"@), ("c"@, "c"@), ("typescript"@, "ts"@), ("php"@, "php"@),
        ("swift"@, "swift"@), ("ruby"@, "rb"@), ("go"@, "go"@), ("kotlin"@, "kt"@),
        ("rust"@, "rs"@), ("r"@, "r"@), ("matlab"@, "m"@), ("perl"@, "pl"@),
        ("scala"@, "scala"@), ("objc"@, "m"@), ("lua"@, "lua"@), ("dart"@, "dart"@),
        ("haskell"@, "hs"@), ("groovy"@, "groovy"@), ("elixir"@, "ex"@), ("julia"@, "jl"@),
        ("fsharp"@, "fs"@), ("clojure"@, "clj"@), ("erlang"@, "erl"@), ("assembly"@, "asm"@),
        ("sql"@, "sql"@), ("bash"@, "sh"@),
    ]
}

/// The file extension used for a language's default export path.
pub open spec fn extension_of(lang: Seq<char>) -> Seq<char> {
    extension_in(extension_table(), lang)
}

pub open spec fn table_view(t: Vec<(&'static str, &'static str)>) -> Seq<(Seq<char>, Seq<char>)> {
    t@.map_values(|e: (&'static str, &'static str)| (e.0@, e.1@))
}

/// The common languages and their file extensions.
pub fn language_extensions() -> (r: Vec<(&'static str, &'static str)>)
    ensures
        table_view(r) == extension_table(),
{
    let r = vec![
        ("python", "py"), ("javascript", "js"), ("java", "java"), ("csharp", "cs"),
        ("cpp", "cpp"), ("c", "c"), ("typescript", "ts"), ("php", "php"),
        ("swift", "swift"), ("ruby", "rb"), ("go", "go"), ("kotlin", "kt"),
        ("rust", "rs"), ("r", "r"), ("matlab", "m"), ("perl", "pl"),
        ("scala", "scala"), ("objc", "m"), ("lua", "lua"), ("dart", "dart"),
        ("haskell", "hs"), ("groovy", "groovy"), ("elixir", "ex"), ("julia", "jl"),
        ("fsharp", "fs"), ("clojure", "clj"), ("erlang", "erl"), ("assembly", "asm"),
        ("sql", "sql"), ("bash", "sh"),
    ];
    assert(table_view(r) =~= extension_table());
    r
}

/// The file extension for `lang`.
pub fn extension_for(lang: &String) -> (r: Vec<char>)
    ensures
        r@ == extension_of(lang@),
{
    let table = language_extensions();
    let l = chars_of(lang.as_str());
    let mut i: usize = 0;
    assert(table_view(table).skip(0) =~= table_view(table));
    while i < table.len()
        invariant
            i <= table@.len(),
            l@ == lang@,
            extension_of(lang@) == extension_in(table_view(table).skip(i as int), lang@),
        decreases table@.len() - i,
    {
        assert(table_view(table).skip(i as int).drop_first() =~= table_view(table).skip(i as int + 1));
        if same_text(&l, table[i].0) {
            return chars_of(table[i].1);
        }
        i = i + 1;
    }
    assert(table_view(table).skip(i as int).len() == 0);
    chars_of("txt")
}

/// The attributes of a chunk once a bare export has been given its default
/// path, `{stem}.{extension}`.
pub open spec fn with_default_path(iv: InfoView, stem: Seq<char>) -> InfoView {
    if iv.export && iv.path is None {
        InfoView { path: Some(stem + "."@ + extension_of(iv.lang)), ..iv }
    } else {
        iv
    }
}

/// The chunks gathered from `bs`, and whether text now goes to the last of them.
pub open spec fn extract_state(bs: Seq<BlockView>, stem: Seq<char>) -> (Seq<ChunkView>, bool)
    decreases bs.len(),
{
    if bs.len() == 0 {
        (seq![], false)
    } else {
        let (cs, open) = extract_state(bs.drop_last(), stem);
        match bs.last() {
            BlockView::Fence(info) => match parse_info(info) {
                Some(iv) => (
                    cs.push(ChunkView { info: with_default_path(iv, stem), content: seq![] }),
                    true,
                ),
                None => (cs, open),
            },
            BlockView::Text(t) => if open && cs.len() > 0 {
                (cs.update(cs.len() - 1, ChunkView { content: cs.last().content + t, ..cs.last() }), open)
            } else {
                (cs, open)
            },
            BlockView::End => (cs, false),
            BlockView::Other => (cs, open),
        }
    }
}

pub open spec fn chunks_view(cs: Seq<Chunk>) -> Seq<ChunkView> {
    cs.map_values(|c: Chunk| c@)
}

proof fn lemma_chunks_push(s: Seq<Chunk>, x: Chunk)
    ensures
        chunks_view(s.push(x)) == chunks_view(s).push(x@),
{
    assert(chunks_view(s.push(x)) =~= chunks_view(s).push(x@));
}

/// The chunks of a document from its events: each fenced block whose info
/// string parses opens a chunk, and the text inside it becomes its content.
pub fn chunks_from_blocks(blocks: &Vec<Block>, stem: &str) -> (r: Vec<Chunk>)
    ensures
        chunks_view(r@) == extract_state(blocks@.map_values(|b: Block| b@), stem@).0,
{
    let ghost bs = blocks@.map_values(|b: Block| b@);
    let mut chunks: Vec<Chunk> = Vec::new();
    let mut open = false;
    let mut i: usize = 0;
    assert(chunks_view(chunks@) =~= extract_state(bs.take(0), stem@).0);
    while i < blocks.len()
        invariant
            i <= blocks@.len(),
            bs == blocks@.map_values(|b: Block| b@),
            (chunks_view(chunks@), open) == extract_state(bs.take(i as int), stem@),
        decreases blocks@.len() - i,
    {
        assert(bs.take(i as int + 1).drop_last() =~= bs.take(i as int));
        assert(bs.take(i as int + 1).last() == blocks@[i as int]@);
        match &blocks[i] {
            Block::Fence(info) => {
                match parse_info_string(info.as_str()) {
                    Some(parsed) => {
                        let mut parsed = parsed;
                        if parsed.export && parsed.path.is_none() {
                            let ext = extension_for(&parsed.lang);
                            let mut p = chars_of(stem);
                            p.push('.');
                            let mut k: usize = 0;
                            let ghost p0 = p@;
                            while k < ext.len()
                                invariant
                                    k <= ext@.len(),
                                    p@ == p0 + ext@.take(k as int),
                                decreases ext@.len() - k,
                            {
                                p.push(ext[k]);
                                k = k + 1;
                                assert(p@ =~= p0 + ext@.take(k as int));
                            }
                            assert(ext@.take(k as int) =~= ext@);
                            assert(p@ =~= stem@ + "."@ + ext@) by {
                                reveal_strlit(".");
                            }
                            parsed.path = Some(string_of(&p));
                        }
                        let c = Chunk { info: parsed, content: String::new() };
                        proof {
                            lemma_chunks_push(chunks@, c);
                        }
                        chunks.push(c);
                        open = true;
                    },
                    None => {},
                }
            },
            Block::Text(t) => {
                if open && chunks.len() > 0 {
                    let ghost before = chunks@;
                    let mut last = chunks.pop().unwrap();
                    last.content.append(t.as_str());
                    proof {
                        lemma_chunks_push(chunks@, last);
                    }
                    chunks.push(last);
                    assert(chunks_view(chunks@) =~= chunks_view(before).update(
                        before.len() - 1,
                        ChunkView { content: chunks_view(before).last().content + t@, ..chunks_view(before).last() },
                    ));
                }
            },
            Block::End => {
                open = false;
            },
            Block::Other => {},
        }
        i = i + 1;
    }
    assert(bs.take(i as int) =~= bs);
    chunks
}

/// The chunks of a Markdown document, in order. `stem` names the document in
/// default export paths.
pub fn extract_chunks(text: &str, stem: &str) -> (r: Vec<Chunk>)
    ensures
        chunks_view(r@) == extract_state(markdown_blocks(text@), stem@).0,
{
    let blocks = blocks_of(text);
    chunks_from_blocks(&blocks, stem)
}

} // verus!
