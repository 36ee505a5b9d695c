use toporepo::lang::TagQueries;
use toporepo::graph::{edge_terms, ident_factors, is_structured_name, IdentFactors};
use toporepo::index::{FileData, Index};
use toporepo::tags::{Kind, Tag};

fn tag(name: &str, kind: Kind, line: usize) -> Tag {
    Tag {
        name: name.to_string(),
        kind,
        line,
        end_line: line,
        start_byte: 0,
        end_byte: 0,
        doc: None,
        doc_line: None,
    }
}

fn file(rel: &str, tags: Vec<Tag>) -> FileData {
    FileData { path: format!("/r/{rel}"), rel: rel.to_string(), source: String::new(), tags }
}

fn sample() -> Index {
    Index::from_files(vec![
        file("a.rs", vec![tag("parse", Kind::Def, 1), tag("walk", Kind::Ref, 2), tag("walk", Kind::Ref, 3)]),
        file("b.rs", vec![tag("walk", Kind::Def, 1), tag("parse", Kind::Ref, 4), tag("walk", Kind::Def, 9)]),
        file("c.rs", vec![tag("walk", Kind::Ref, 1), tag("parse", Kind::Def, 2), tag("walk", Kind::Def, 3)]),
    ])
}

#[test]
fn define_table_lists_each_file_once() {
    let idx = sample();
    assert_eq!(idx.files.len(), 3);
    assert_eq!(idx.defines, vec![("parse".to_string(), vec![0, 2]), ("walk".to_string(), vec![1, 2])]);
}

#[test]
fn reference_table_counts_per_file() {
    let idx = sample();
    assert_eq!(
        idx.references,
        vec![("walk".to_string(), vec![(0, 2), (2, 1)]), ("parse".to_string(), vec![(1, 1)])]
    );
}

#[test]
fn empty_index() {
    let idx = Index::from_files(Vec::new());
    assert!(idx.files.is_empty() && idx.defines.is_empty() && idx.references.is_empty());
}

#[test]
fn defs_of_a_file() {
    let idx = sample();
    let d: Vec<(usize, String)> = idx.defs(1).into_iter().map(|(i, t)| (i, t.name.clone())).collect();
    assert_eq!(d, vec![(0, "walk".to_string()), (2, "walk".to_string())]);
    assert!(Index::from_files(vec![file("x.rs", vec![tag("r", Kind::Ref, 1)])]).defs(0).is_empty());
}

#[test]
fn structured_names() {
    assert!(is_structured_name("get_ranked_tags"));
    assert!(is_structured_name("kebab-case"));
    assert!(is_structured_name("camelCase"));
    assert!(is_structured_name("HTTPServer2Go_x"));
    assert!(!is_structured_name("main"));
    assert!(!is_structured_name("__init__"));
    assert!(!is_structured_name("_private"));
    assert!(!is_structured_name("Parser"));
    assert!(!is_structured_name(""));
    assert!(is_structured_name("__a_b__"));
}

#[test]
fn identifier_factors() {
    let mentioned = vec!["walk".to_string()];
    assert_eq!(
        ident_factors("walk", 2, &mentioned),
        IdentFactors { mentioned: true, structured: false, private: false, common: false }
    );
    assert_eq!(
        ident_factors("_do_it", 6, &mentioned),
        IdentFactors { mentioned: false, structured: true, private: true, common: true }
    );
    assert_eq!(
        ident_factors("parse", 5, &Vec::new()),
        IdentFactors { mentioned: false, structured: false, private: false, common: false }
    );
}

#[test]
fn edge_terms_join_referencers_to_other_definers() {
    let idx = sample();
    let terms = edge_terms(&idx, &vec!["parse".to_string()], &vec![2]);
    let got: Vec<(usize, usize, bool, usize, bool)> =
        terms.iter().map(|e| (e.referencer, e.definer, e.chat, e.count, e.factors.mentioned)).collect();
    assert_eq!(
        got,
        vec![
            // walk: referenced by a.rs (2x) and c.rs (1x, chat), defined by b.rs and c.rs
            (0, 1, false, 2, false),
            (0, 2, false, 2, false),
            (2, 1, true, 1, false),
            // parse: referenced by b.rs, defined by a.rs and c.rs
            (1, 0, false, 1, true),
            (1, 2, false, 1, true),
        ]
    );
    for e in &terms {
        assert_ne!(e.referencer, e.definer);
    }
}

#[test]
fn names_without_definition_give_no_edges() {
    let idx = Index::from_files(vec![file("a.rs", vec![tag("ghost", Kind::Ref, 1)])]);
    assert!(edge_terms(&idx, &Vec::new(), &Vec::new()).is_empty());
}

#[test]
fn index_from_sources_keeps_tagged_files() {
    let names = [
        "rust-tags.scm", "python-tags.scm", "javascript-tags.scm", "typescript-tags.scm", "go-tags.scm",
        "java-tags.scm", "c-tags.scm", "cpp-tags.scm", "csharp-tags.scm", "ruby-tags.scm",
    ];
    let rust = "(function_item name: (identifier) @name.definition.function) @definition.function\n(call_expression function: (identifier) @name.reference.call) @reference.call";
    let queries = TagQueries {
        files: names.iter().map(|n| (n.to_string(), if *n == "rust-tags.scm" { rust.to_string() } else { String::new() })).collect(),
    };
    let sources = vec![
        ("/repo/src/a.rs".to_string(), "fn a() { b(); }\n".to_string()),
        ("/repo/notes.txt".to_string(), "fn x() {}\n".to_string()),
        ("/repo/src/empty.rs".to_string(), "// nothing\n".to_string()),
        ("/repo/src/b.rs".to_string(), "fn b() {}\n".to_string()),
    ];
    let idx = Index::from_sources("/repo", sources, &queries);
    let rels: Vec<&str> = idx.files.iter().map(|f| f.rel.as_str()).collect();
    assert_eq!(rels, vec!["src/a.rs", "src/b.rs"]);
    assert_eq!(idx.files[0].path, "/repo/src/a.rs");
    assert_eq!(idx.files[1].source, "fn b() {}\n");
    assert_eq!(idx.defines, vec![("a".to_string(), vec![0]), ("b".to_string(), vec![1])]);
    assert_eq!(idx.references, vec![("b".to_string(), vec![(0, 1)])]);
}
