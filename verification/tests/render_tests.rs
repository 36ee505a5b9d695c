use toporepo::lang::{detect, TagQueries};
use toporepo::render::{is_scope_kind, plan_lines, plan_with_chains, render_file, Scope};
use toporepo::tags::{Kind, Tag};

fn queries() -> TagQueries {
    let names = [
        "rust-tags.scm",
        "python-tags.scm",
        "javascript-tags.scm",
        "typescript-tags.scm",
        "go-tags.scm",
        "java-tags.scm",
        "c-tags.scm",
        "cpp-tags.scm",
        "csharp-tags.scm",
        "ruby-tags.scm",
    ];
    TagQueries { files: names.iter().map(|n| (n.to_string(), String::new())).collect() }
}

fn def(name: &str, line: usize, end_line: usize, start_byte: usize, doc_line: Option<usize>) -> Tag {
    Tag {
        name: name.to_string(),
        kind: Kind::Def,
        line,
        end_line,
        start_byte,
        end_byte: start_byte,
        doc: doc_line.map(|_| "doc".to_string()),
        doc_line,
    }
}

#[test]
fn scope_kinds() {
    assert!(is_scope_kind("function_item"));
    assert!(is_scope_kind("impl_item"));
    assert!(is_scope_kind("class_definition"));
    assert!(is_scope_kind("namespace_declaration"));
    assert!(!is_scope_kind("block"));
    assert!(!is_scope_kind("source_file"));
    assert!(!is_scope_kind(""));
}

#[test]
fn render_with_gaps() {
    let src = "a\nb\nc\nd\ne\n";
    let out = render_file("x.rs", src, &vec![1, 2, 4]);
    assert_eq!(out, "x.rs\n  1| a\n  2| b\n\n  4| d\n");
}

#[test]
fn render_skips_out_of_range_lines() {
    let src = "a\nb\n";
    let out = render_file("x.rs", src, &vec![0, 2, 3, 9]);
    assert_eq!(out, "x.rs\n  2| b\n");
}

#[test]
fn render_empty_selection_is_empty() {
    assert_eq!(render_file("x.rs", "a\n", &vec![]), "");
}

#[test]
fn render_width_follows_line_count() {
    let src: String = (1..=1200).map(|i| format!("l{i}\n")).collect();
    let out = render_file("big.rs", &src, &vec![7, 1200]);
    assert_eq!(out, "big.rs\n   7| l7\n\n1200| l1200\n");
}

#[test]
fn render_handles_crlf() {
    let out = render_file("w.rs", "x\r\ny\r\n", &vec![1, 2]);
    assert_eq!(out, "w.rs\n  1| x\n  2| y\n");
}

#[test]
fn plan_shows_enclosing_scope_headers() {
    let src = "struct S;\n\nimpl S {\n    fn new() -> S {\n        S\n    }\n}\n";
    let lang = detect("s.rs", &queries()).unwrap();
    let start = src.find("fn new").unwrap();
    let t = def("new", 4, 6, start, None);
    let plan = plan_lines(&lang, src, &vec![(7, &t)]);
    assert_eq!(plan.len(), 1);
    assert_eq!(plan[0].0, 7);
    // impl header (line 3), the name line and the last line
    assert_eq!(plan[0].1, vec![3, 4, 6]);
}

#[test]
fn plan_includes_doc_lines() {
    let src = "// one\n// two\nfn f() {}\n";
    let lang = detect("d.rs", &queries()).unwrap();
    let t = def("f", 3, 3, src.find("fn f").unwrap(), Some(1));
    let plan = plan_lines(&lang, src, &vec![(0, &t)]);
    assert_eq!(plan[0].1, vec![1, 2, 3]);
}

#[test]
fn plan_of_top_level_item_has_no_header() {
    let src = "fn a() {\n    1\n}\n";
    let lang = detect("a.rs", &queries()).unwrap();
    let t = def("a", 1, 3, 0, None);
    let u = def("a", 1, 1, 0, None);
    let plan = plan_lines(&lang, src, &vec![(0, &t), (5, &u)]);
    assert_eq!(plan, vec![(0, vec![1, 3]), (5, vec![1])]);
}

#[test]
fn more_lines_never_render_shorter() {
    let src = "a\nb\nc\nd\ne\nf\n";
    let small = render_file("f.rs", src, &vec![2, 4]);
    let filled = render_file("f.rs", src, &vec![2, 3, 4]);
    let wide = render_file("f.rs", src, &vec![1, 2, 4, 6, 7]);
    assert!(filled.len() >= small.len());
    assert!(wide.len() >= small.len());
    assert_eq!(filled, "f.rs\n  2| b\n  3| c\n  4| d\n");
}

#[test]
fn plan_with_given_chains() {
    let t = def("m", 5, 7, 0, None);
    let chain = vec![
        Scope { start_row: 3, end_row: 8, has_parent: true, kind: "impl_item".to_string() },
        Scope { start_row: 0, end_row: 20, has_parent: true, kind: "mod_item".to_string() },
        Scope { start_row: 1, end_row: 9, has_parent: true, kind: "block".to_string() },
        Scope { start_row: 0, end_row: 30, has_parent: false, kind: "function_item".to_string() },
    ];
    let r = plan_with_chains(&vec![(2, &t)], &Some(vec![chain]));
    // impl header at line 4, and the name and last lines; `mod_item` has no scope keyword
    assert_eq!(r, vec![(2, vec![4, 5, 7])]);
    assert_eq!(plan_with_chains(&vec![(2, &t)], &None), vec![(2, vec![5])]);
}
