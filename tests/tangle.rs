use tangle::paths::normalize_path;
use tangle::chunk::{create_named_chunk_map, Chunk, ChunkInfo};
use tangle::extract::{chunks_from_blocks, extension_for, extract_chunks, language_extensions, Block};
use tangle::info::parse_info_string;
use tangle::output::{compare_outputs, generate_output_map, DiffKind, Difference, DiskState, Document};

fn info(lang: &str, path: Option<&str>, name: Option<&str>, export: bool) -> ChunkInfo {
    ChunkInfo {
        lang: lang.to_string(),
        path: path.map(|p| p.to_string()),
        name: name.map(|n| n.to_string()),
        export,
    }
}

fn chunk(name: Option<&str>, path: Option<&str>, content: &str) -> Chunk {
    Chunk { info: info("python", path, name, path.is_some()), content: content.to_string() }
}

fn expand_with(all: &[Chunk], which: usize) -> String {
    let index = create_named_chunk_map(all);
    all[which].expand(&index)
}

const SIMPLE: &str = "# Simple\n\nSome prose.\n\n```rust {export}\nfn main() {}\n```\n";

const TWO_CHUNKS: &str = "# Two chunks\n\n```python {name=hello_world}\nprint(\"Hello World\")\n```\n\nText between.\n\n```rust {export=main.rs}\nfn main() {\n    // A first chunk\n}\n```\n";

const SOME_YES_SOME_NO: &str = "```python\nprint(1)\n```\n\n```rust {name=kept}\nlet a = 1;\n```\n\n```\nplain\n```\n\n```bash {export=run.sh}\necho hi\n```\n\n    indented code\n";

#[test]
fn test_extract_simple_chunk() {
    let chunks = extract_chunks(SIMPLE, "simple");

    assert!(chunks.len() == 1);

    let chunk0 = &chunks[0];
    assert!(chunk0.info.lang == "rust");
    assert_eq!(chunk0.info.path, Some("simple.rs".to_string()));
}

#[test]
fn test_extract_two_chunks() {
    let chunks = extract_chunks(TWO_CHUNKS, "two_chunks");

    assert!(chunks.len() == 2);

    let chunk0 = &chunks[0];
    assert!(chunk0.info.lang == "python");
    assert!(chunk0.content == "print(\"Hello World\")\n");
    assert_eq!(chunk0.info.name, Some("hello_world".to_string()));

    let chunk1 = &chunks[1];
    assert!(chunk1.info.lang == "rust");
    assert!(chunk1.content == "fn main() {\n    // A first chunk\n}\n");
    assert_eq!(chunk1.info.path, Some("main.rs".to_string()));
}

#[test]
fn some_yes_some_no() {
    let chunks = extract_chunks(SOME_YES_SOME_NO, "some_yes_some_no");
    assert!(chunks.len() == 2);
}

#[test]
fn test_full_string_parsing() {
    let info_str = "rust {export=src/main.rs} {name=chunk_1}";
    let expected = info("rust", Some("src/main.rs"), Some("chunk_1"), true);
    assert_eq!(parse_info_string(info_str), Some(expected));
}

#[test]
fn test_language_and_name() {
    let info_str = "python {name=hello_world}";
    let expected = info("python", None, Some("hello_world"), false);
    assert_eq!(parse_info_string(info_str), Some(expected));
}

#[test]
fn test_attributes_in_different_order() {
    let info_str = "rust {name=chunk_1} {export=src/main.rs}";
    let expected = info("rust", Some("src/main.rs"), Some("chunk_1"), true);
    assert_eq!(parse_info_string(info_str), Some(expected));
}

#[test]
fn test_language_only() {
    let info_str = "python";
    assert_eq!(parse_info_string(info_str), None);
}

#[test]
fn test_with_export_only() {
    let info_str = "javascript {export=app.js}";
    let expected = info("javascript", Some("app.js"), None, true);
    assert_eq!(parse_info_string(info_str), Some(expected));
}

#[test]
fn test_with_headless_export_only() {
    let info_str = "rust {export}";
    let expected = info("rust", None, None, true);
    assert_eq!(parse_info_string(info_str), Some(expected));
}

#[test]
fn test_headless_export_with_name() {
    let info_str = "rust {name=my_frag} {export}";
    let expected = info("rust", None, Some("my_frag"), true);
    assert_eq!(parse_info_string(info_str), Some(expected));
}

#[test]
fn test_with_name_only() {
    let info_str = "rust {name=my_fragment}";
    let expected = info("rust", None, Some("my_fragment"), false);
    assert_eq!(parse_info_string(info_str), Some(expected));
}

#[test]
fn test_with_extra_whitespace() {
    let info_str = "  bash   {export=run.sh}  ";
    let expected = info("bash", Some("run.sh"), None, true);
    assert_eq!(parse_info_string(info_str), Some(expected));
}

#[test]
fn test_no_match_for_invalid_format() {
    let info_str = "{invalid_format}";
    assert_eq!(parse_info_string(info_str), None);
}

#[test]
fn test_empty_string() {
    let info_str = "";
    assert_eq!(parse_info_string(info_str), None);
}

#[test]
fn unknown_attributes_and_bare_name_are_ignored() {
    assert_eq!(parse_info_string("rust {name} {color=red}"), None);
    assert_eq!(parse_info_string("rust {color=red} {name=x}"), Some(info("rust", None, Some("x"), false)));
}

#[test]
fn later_export_path_overwrites_earlier() {
    assert_eq!(
        parse_info_string("c {export=a.c} {export} {export=b.c}"),
        Some(info("c", Some("b.c"), None, true))
    );
}

#[test]
fn info_string_with_line_break_in_attributes_is_no_chunk() {
    assert_eq!(parse_info_string("rust {export}\nmore"), None);
}

#[test]
fn strings_without_export_or_named_attribute_are_no_chunk() {
    for s in ["rust", "rust {nam=x}", "rust {exp}", "go {name}", "  ", "rust {name=}"] {
        assert_eq!(parse_info_string(s), None, "{}", s);
    }
}

#[test]
fn export_forms_and_order() {
    assert_eq!(parse_info_string("py {export}"), Some(info("py", None, None, true)));
    assert_eq!(parse_info_string("py {export=x/y.py}"), Some(info("py", Some("x/y.py"), None, true)));
    assert_eq!(
        parse_info_string("py {export=o.py} {name=n}"),
        parse_info_string("py {name=n} {export=o.py}")
    );
}

#[test]
fn greet_is_expanded_into_out_py() {
    let doc = "```python {name=greet}\nprint(\"hi\")\n```\n\n```python {export=out.py}\n  <<greet>>\n```\n";
    let map = generate_output_map(
        &vec![Document { text: doc.to_string(), stem: "doc".to_string() }],
        &String::new(),
    );
    assert_eq!(map.entries, vec![("out.py".to_string(), "  print(\"hi\")\n".to_string())]);
}

#[test]
fn two_chunks_with_one_name_are_joined_in_order() {
    let all = vec![
        chunk(Some("part"), None, "a = 1\n"),
        chunk(None, Some("out.py"), "start\n    <<part>>\nend\n"),
        chunk(Some("part"), None, "b = 2\nc = 3\n"),
    ];
    assert_eq!(expand_with(&all, 1), "start\n    a = 1\n\n    b = 2\n    c = 3\nend\n");
}

#[test]
fn self_reference_gives_one_diagnostic() {
    let all = vec![chunk(Some("loop"), Some("l.py"), "x\n<<loop>>\ny\n")];
    assert_eq!(
        expand_with(&all, 0),
        "x\n// ERROR: Circular reference detected for chunk 'loop'\ny\n"
    );
}

#[test]
fn transitive_cycle_gives_one_diagnostic_per_site() {
    let all = vec![
        chunk(Some("a"), Some("a.py"), "<<b>>\n"),
        chunk(Some("b"), None, "  <<a>>\n"),
    ];
    assert_eq!(
        expand_with(&all, 0),
        "  // ERROR: Circular reference detected for chunk 'a'\n"
    );
}

#[test]
fn missing_reference_gives_one_diagnostic_and_goes_on() {
    let all = vec![chunk(None, Some("m.py"), "one\n  <<nowhere>>\ntwo\n")];
    assert_eq!(expand_with(&all, 0), "one\n  // ERROR: Chunk 'nowhere' not found\ntwo\n");
}

#[test]
fn nested_indentation_accumulates() {
    let all = vec![
        chunk(None, Some("n.py"), "def f():\n    <<body>>\n"),
        chunk(Some("body"), None, "if x:\n  <<inner>>\n"),
        chunk(Some("inner"), None, "a\nb\n"),
    ];
    assert_eq!(expand_with(&all, 0), "def f():\n    if x:\n      a\n      b\n");
}

#[test]
fn reference_syntax_needs_a_whole_line() {
    let all = vec![
        chunk(None, Some("r.py"), "x = <<v>>\n<<v>> y\n<< v >>\n <<v>> \r\n"),
        chunk(Some("v"), None, "1\n"),
    ];
    assert_eq!(expand_with(&all, 0), "x = <<v>>\n<<v>> y\n<< v >>\n 1\n");
}

#[test]
fn crlf_line_endings_are_normalised() {
    let all = vec![chunk(None, Some("c.py"), "a\r\nb")];
    assert_eq!(expand_with(&all, 0), "a\nb\n");
}

#[test]
fn default_export_paths_use_the_extension_table() {
    let doc = "```haskell {export}\nmain = pure ()\n```\n\n```brainfart {export}\n+\n```\n";
    let chunks = extract_chunks(doc, "notes");
    assert_eq!(chunks[0].info.path, Some("notes.hs".to_string()));
    assert_eq!(chunks[1].info.path, Some("notes.txt".to_string()));
}

#[test]
fn extension_lookup() {
    assert_eq!(language_extensions().len(), 30);
    assert_eq!(extension_for(&"objc".to_string()), vec!['m']);
    assert_eq!(extension_for(&"bash".to_string()), vec!['s', 'h']);
    assert_eq!(extension_for(&"cobol".to_string()), vec!['t', 'x', 't']);
}

#[test]
fn chunks_from_plain_blocks() {
    let blocks = vec![
        Block::Text("outside".to_string()),
        Block::Fence("lua {export=x.lua}".to_string()),
        Block::Text("print(1)\n".to_string()),
        Block::Text("print(2)\n".to_string()),
        Block::End,
        Block::Text("after".to_string()),
    ];
    let chunks = chunks_from_blocks(&blocks, "doc");
    assert_eq!(chunks.len(), 1);
    assert_eq!(chunks[0].content, "print(1)\nprint(2)\n");
}

#[test]
fn outputs_to_one_file_are_concatenated_across_documents() {
    let d1 = "```go {export=main.go}\npackage main\n```\n";
    let d2 = "```go {export=main.go}\nfunc main() {}\n```\n";
    let map = generate_output_map(
        &vec![
            Document { text: d1.to_string(), stem: "a".to_string() },
            Document { text: d2.to_string(), stem: "b".to_string() },
        ],
        &"/tmp/out".to_string(),
    );
    assert_eq!(
        map.entries,
        vec![("/tmp/out/main.go".to_string(), "package main\nfunc main() {}\n".to_string())]
    );
}

#[test]
fn absolute_export_paths_ignore_the_base() {
    let d = "```go {export=/abs/x.go}\nx\n```\n";
    let map = generate_output_map(&vec![Document { text: d.to_string(), stem: "a".to_string() }], &"/base/".to_string());
    assert_eq!(map.entries[0].0, "/abs/x.go");
}

#[test]
fn written_output_is_in_sync() {
    let d = "```rust {export}\nfn main() {}\n```\n";
    let map = generate_output_map(&vec![Document { text: d.to_string(), stem: "one".to_string() }], &"w".to_string());
    let disk: Vec<DiskState> = map.entries.iter().map(|e| DiskState::Found(e.1.clone())).collect();
    assert!(compare_outputs(&map, &disk).is_empty());
}

#[test]
fn every_kind_of_difference_is_reported() {
    let d = "```c {export=a.c}\na\n```\n```c {export=b.c}\nb\n```\n```c {export=c.c}\nc\n```\n```c {export=d.c}\nd\n```\n";
    let map = generate_output_map(&vec![Document { text: d.to_string(), stem: "x".to_string() }], &String::new());
    let disk = vec![
        DiskState::Found("a\n".to_string()),
        DiskState::Found("changed\n".to_string()),
        DiskState::Missing,
        DiskState::Unreadable,
    ];
    assert_eq!(
        compare_outputs(&map, &disk),
        vec![
            Difference { index: 1, kind: DiffKind::Mismatch },
            Difference { index: 2, kind: DiffKind::Missing },
            Difference { index: 3, kind: DiffKind::Unreadable },
        ]
    );
}

#[test]
fn undeclared_reference_marks_the_output_unresolved() {
    let broken = "```python {export=b.py}\n<<ghost>>\n```\n";
    let fine = "```python {name=ok}\npass\n```\n```python {export=f.py}\n<<ok>>\n```\n";
    let map = generate_output_map(&vec![Document { text: broken.to_string(), stem: "b".to_string() }], &String::new());
    assert!(map.unresolved);
    assert_eq!(map.entries[0].1, "// ERROR: Chunk 'ghost' not found\n");
    let map = generate_output_map(&vec![Document { text: fine.to_string(), stem: "f".to_string() }], &String::new());
    assert!(!map.unresolved);
    assert_eq!(map.entries[0].1, "pass\n");
}

#[test]
fn unicode_language_words_and_names() {
    assert_eq!(parse_info_string("é {export}"), Some(info("é", None, None, true)));
    assert_eq!(parse_info_string("café {export}"), Some(info("café", None, None, true)));
    assert_eq!(parse_info_string("日本 {name=x}"), Some(info("日本", None, Some("x"), false)));
}

#[test]
fn unicode_reference_names_are_expanded() {
    let all = vec![
        chunk(None, Some("u.py"), "  <<größe>>\n"),
        chunk(Some("größe"), None, "g = 1\n"),
    ];
    assert_eq!(expand_with(&all, 0), "  g = 1\n");
}

#[test]
fn attributes_that_only_resemble_chunk_marks_are_ignored() {
    assert_eq!(parse_info_string("rust {exporter}"), None);
    assert_eq!(parse_info_string("rust {names=x}"), None);
    assert_eq!(parse_info_string("rust {foo={export}}"), None);
}

#[test]
fn same_file_spelled_differently_is_one_output() {
    let d = "```go {export=x//a.go}\none\n```\n```go {export=x/./a.go}\ntwo\n```\n```go {export=x/a.go/}\nthree\n```\n";
    let map = generate_output_map(&vec![Document { text: d.to_string(), stem: "d".to_string() }], &"/base".to_string());
    assert_eq!(map.entries, vec![("/base/x/a.go".to_string(), "one\ntwo\nthree\n".to_string())]);
}

#[test]
fn normalised_paths() {
    let cases = [
        ("a.py", "a.py"),
        ("./a.py", "./a.py"),
        ("/./a", "/a"),
        ("a//b///c/", "a/b/c"),
        ("/", "/"),
        ("", ""),
        ("a/../b", "a/../b"),
    ];
    for (p, n) in cases {
        assert_eq!(normalize_path(&p.to_string()), n, "{}", p);
    }
}

#[test]
fn broken_reference_in_unused_chunk_does_not_fail() {
    let d = "```python {name=unused}\n<<ghost>>\n```\n```python {export=f.py}\npass\n```\n";
    let map = generate_output_map(&vec![Document { text: d.to_string(), stem: "f".to_string() }], &String::new());
    assert!(!map.unresolved);
    let nested = "```python {name=mid}\n<<ghost>>\n```\n```python {export=g.py}\n<<mid>>\n```\n";
    let map = generate_output_map(&vec![Document { text: nested.to_string(), stem: "g".to_string() }], &String::new());
    assert!(map.unresolved);
}
