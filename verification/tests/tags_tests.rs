use toporepo::lang::TagQueries;
use toporepo::tags::{
    extract, kind_counts, listing_line, strip_comment_markers, tags_from_matches, tags_from_query_results, Capture, Kind,
    RawCapture, Tag,
};

const RUST_QUERY: &str = r#"
(function_item name: (identifier) @name.definition.function) @definition.function
(struct_item name: (type_identifier) @name.definition.class) @definition.class
(call_expression function: (identifier) @name.reference.call) @reference.call
(line_comment) @doc
"#;

fn queries() -> TagQueries {
    let mut files = Vec::new();
    for f in [
        "rust-tags.scm",
        "python-tags.scm",
        "javascript-tags.scm",
        "typescript-tags.scm",
        "go-tags.scm",
        "java-tags.scm",
        "c-tags.scm",
        "cpp-tags.scm",
        "csharp-tags.scm",
        "ruby-tags.scm",
    ] {
        let q = if f == "rust-tags.scm" { RUST_QUERY } else { "" };
        files.push((f.to_string(), q.to_string()));
    }
    TagQueries { files }
}

fn cap(name: &str, rows: (usize, usize), bytes: (usize, usize), text: Option<&str>) -> Capture {
    Capture {
        name: name.to_string(),
        start_byte: bytes.0,
        end_byte: bytes.1,
        start_row: rows.0,
        end_row: rows.1,
        text: text.map(|t| t.to_string()),
    }
}

#[test]
fn strip_markers_of_line_comments() {
    assert_eq!(strip_comment_markers("/// Adds one."), "Adds one.");
    assert_eq!(strip_comment_markers("//! Crate doc"), "Crate doc");
    assert_eq!(strip_comment_markers("# python comment"), "python comment");
    assert_eq!(strip_comment_markers("// a\n// b"), "a b");
}

#[test]
fn strip_markers_of_block_comments() {
    assert_eq!(strip_comment_markers("/**\n * First.\n * Second.\n */"), "First. Second.");
    assert_eq!(strip_comment_markers("/* inline */"), "inline");
    assert_eq!(strip_comment_markers("*bold*/"), "bold");
}

#[test]
fn strip_markers_drops_empty_lines() {
    assert_eq!(strip_comment_markers("//\n//   \n// x"), "x");
    assert_eq!(strip_comment_markers("///"), "");
    assert_eq!(strip_comment_markers(""), "");
}

#[test]
fn stripped_comment_is_a_single_line() {
    for raw in ["// a\n// b\n// c", "/*\n x\n\n y\n*/", "#a\r\n#b"] {
        assert!(!strip_comment_markers(raw).contains('\n'));
    }
}

#[test]
fn matches_become_tags() {
    let ms = vec![
        vec![cap("doc", (1, 1), (10, 18), Some("// hello"))],
        vec![
            cap("name.definition.function", (3, 3), (33, 36), Some("foo")),
            cap("definition.function", (3, 5), (30, 80), Some("fn foo() {\n}\n")),
        ],
        vec![
            cap("name.reference.call", (7, 7), (90, 93), Some("bar")),
            cap("reference.call", (7, 9), (90, 120), Some("bar(\n)")),
        ],
    ];
    let tags = tags_from_matches(&ms);
    assert_eq!(tags.len(), 2);
    let foo = &tags[0];
    assert_eq!(foo.name, "foo");
    assert_eq!(foo.kind, Kind::Def);
    assert_eq!((foo.line, foo.end_line), (4, 6));
    assert_eq!((foo.start_byte, foo.end_byte), (30, 80));
    assert_eq!(foo.doc.as_deref(), Some("hello"));
    assert_eq!(foo.doc_line, Some(2));
    let bar = &tags[1];
    assert_eq!(bar.name, "bar");
    assert_eq!(bar.kind, Kind::Ref);
    // a reference spans its own line
    assert_eq!((bar.line, bar.end_line), (8, 8));
    assert_eq!(bar.doc, None);
    assert_eq!(bar.doc_line, None);
}

#[test]
fn inline_doc_is_joined_in_byte_order() {
    let ms = vec![vec![
        cap("doc", (2, 2), (20, 28), Some("// second")),
        cap("doc", (1, 1), (10, 18), Some("// first")),
        cap("name.definition.method", (3, 3), (33, 36), Some("m")),
    ]];
    let tags = tags_from_matches(&ms);
    assert_eq!(tags.len(), 1);
    assert_eq!(tags[0].doc.as_deref(), Some("first second"));
    assert_eq!(tags[0].doc_line, Some(2));
    // without a body capture the name node is the body
    assert_eq!((tags[0].end_line, tags[0].start_byte, tags[0].end_byte), (4, 33, 36));
}

#[test]
fn loose_doc_too_far_above_is_not_attached() {
    let ms = vec![
        vec![cap("doc", (0, 0), (0, 8), Some("// far"))],
        vec![cap("name.definition.function", (3, 3), (40, 43), Some("f"))],
    ];
    let tags = tags_from_matches(&ms);
    assert_eq!(tags[0].doc, None);
}

#[test]
fn loose_doc_is_used_once() {
    let ms = vec![
        vec![cap("doc", (0, 0), (0, 8), Some("// only"))],
        vec![cap("name.definition.function", (1, 1), (10, 11), Some("a"))],
        vec![cap("name.definition.function", (1, 1), (20, 21), Some("b"))],
    ];
    let tags = tags_from_matches(&ms);
    assert_eq!(tags[0].doc.as_deref(), Some("only"));
    assert_eq!(tags[1].doc, None);
}

#[test]
fn unnamed_or_empty_matches_give_no_tag() {
    let ms = vec![
        vec![cap("definition.function", (0, 2), (0, 10), Some("fn x() {}"))],
        vec![cap("name.definition.function", (0, 0), (3, 3), Some(""))],
        vec![cap("name.definition.function", (0, 0), (3, 4), None)],
        vec![cap("name.other", (0, 0), (3, 4), Some("x"))],
    ];
    // the first match has no name capture: it only contributes loose docs (none)
    assert!(tags_from_matches(&ms).is_empty());
}

#[test]
fn extract_finds_rust_definitions_and_references() {
    let src = "// Adds one.\nfn add_one(x: i32) -> i32 {\n    x + 1\n}\n\nstruct Point {\n    x: i32,\n}\n\nfn main() {\n    let p = Point { x: 1 };\n    add_one(p.x);\n}\n";
    let tags = extract("src/lib.rs", src, &queries());
    assert_eq!(tags.len(), 4);
    let add = tags.iter().find(|t| t.name == "add_one" && t.kind == Kind::Def).unwrap();
    assert_eq!((add.line, add.end_line), (2, 4));
    assert_eq!(add.doc.as_deref(), Some("Adds one."));
    assert_eq!(add.doc_line, Some(1));
    assert_eq!(&src[add.start_byte..add.end_byte], "fn add_one(x: i32) -> i32 {\n    x + 1\n}");
    let point = tags.iter().find(|t| t.name == "Point").unwrap();
    assert_eq!((point.kind, point.line, point.end_line), (Kind::Def, 6, 8));
    let main = tags.iter().find(|t| t.name == "main").unwrap();
    assert_eq!((main.kind, main.line, main.end_line), (Kind::Def, 10, 13));
    let call = tags.iter().find(|t| t.name == "add_one" && t.kind == Kind::Ref).unwrap();
    assert_eq!((call.line, call.end_line), (12, 12));
    assert_eq!(call.doc, None);
}

#[test]
fn extract_of_unsupported_file_is_empty() {
    assert!(extract("notes.txt", "fn a() {}", &queries()).is_empty());
    assert!(extract("Makefile", "all:", &queries()).is_empty());
}

#[test]
fn extract_with_empty_query_is_empty() {
    assert!(extract("a.py", "def f():\n    pass\n", &queries()).is_empty());
}

#[test]
fn extract_with_bad_query_is_empty() {
    let mut q = queries();
    q.files[0].1 = "(not_a_node_kind) @x".to_string();
    assert!(extract("a.rs", "fn a() {}", &q).is_empty());
}

#[test]
fn every_extracted_tag_is_well_shaped() {
    let src = "/// Doc.\nfn a() { b(); c(); }\n// stray\n\n\n\nfn b() {}\nfn c() {}\n";
    for t in extract("x.rs", src, &queries()) {
        assert!(!t.name.is_empty());
        assert!(t.line >= 1);
        assert_eq!(t.doc.is_some(), t.doc_line.is_some());
        assert!(t.start_byte <= t.end_byte && t.end_byte <= src.len());
        if t.kind == Kind::Ref {
            assert_eq!(t.end_line, t.line);
            assert!(t.doc.is_none() && t.doc_line.is_none());
        }
        if let Some(d) = &t.doc {
            assert!(!d.is_empty() && !d.contains('\n'));
            assert!(t.doc_line.is_some());
        }
    }
}

#[test]
fn listing_line_layout() {
    let t = Tag {
        name: "walk".to_string(),
        kind: Kind::Def,
        line: 12,
        end_line: 40,
        start_byte: 0,
        end_byte: 0,
        doc: None,
        doc_line: None,
    };
    assert_eq!(listing_line(&t), format!("  {:<4} {:>4}-{:<4} {}", "def", 12, 40, "walk"));
    let r = Tag { kind: Kind::Ref, line: 123456, end_line: 123456, ..t.clone() };
    assert_eq!(listing_line(&r), format!("  {:<4} {:>4}-{:<4} {}", "ref", 123456, 123456, "walk"));
}

#[test]
fn kind_counts_counts_each_kind() {
    let src = "fn a() { b(); b(); }\nfn b() {}\n";
    let tags = extract("x.rs", src, &queries());
    assert_eq!(kind_counts(&tags), (2, 2));
    assert_eq!(kind_counts(&Vec::new()), (0, 0));
}

#[test]
fn tags_from_query_results_resolves_names_and_text() {
    let names = vec!["name.definition.function".to_string(), "definition.function".to_string(), "doc".to_string()];
    let src = "// hi\nfn f() {}\n";
    let raw = vec![
        vec![RawCapture::new(2, 0, 5, 0, 0)],
        vec![RawCapture::new(0, 9, 10, 1, 1), RawCapture::new(1, 6, 15, 1, 1)],
    ];
    let tags = tags_from_query_results(&names, &raw, src).unwrap();
    assert_eq!(tags.len(), 1);
    assert_eq!(tags[0].name, "f");
    assert_eq!((tags[0].line, tags[0].end_line, tags[0].start_byte, tags[0].end_byte), (2, 2, 6, 15));
    assert_eq!(tags[0].doc.as_deref(), Some("hi"));
    assert_eq!(tags[0].doc_line, Some(1));
}

#[test]
fn tags_from_query_results_refuses_bad_indices() {
    let names = vec!["doc".to_string()];
    let raw = vec![vec![RawCapture::new(3, 0, 1, 0, 0)]];
    assert!(tags_from_query_results(&names, &raw, "x").is_none());
    assert_eq!(tags_from_query_results(&names, &Vec::new(), "x").map(|t| t.len()), Some(0));
}

#[test]
fn capture_off_a_char_boundary_has_no_text() {
    let names = vec!["name.definition.function".to_string()];
    // byte 1 is inside the two-byte 'é'
    let raw = vec![vec![RawCapture::new(0, 1, 2, 0, 0)]];
    assert_eq!(tags_from_query_results(&names, &raw, "é").map(|t| t.len()), Some(0));
}

#[test]
fn tags_from_query_results_refuses_ranges_outside_the_text() {
    let names = vec!["name.definition.function".to_string()];
    assert!(tags_from_query_results(&names, &vec![vec![RawCapture::new(0, 0, 9, 0, 0)]], "abc").is_none());
    assert!(tags_from_query_results(&names, &vec![vec![RawCapture::new(0, 2, 1, 0, 0)]], "abc").is_none());
    let ok = tags_from_query_results(&names, &vec![vec![RawCapture::new(0, 1, 3, 0, 0)]], "abc").unwrap();
    assert_eq!((ok[0].name.as_str(), ok[0].start_byte, ok[0].end_byte), ("bc", 1, 3));
}
