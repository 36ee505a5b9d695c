use toporepo::index::{FileData, Index};
use toporepo::lang::TagQueries;
use toporepo::render::approx_tokens;
use toporepo::repomap::{assemble_map, build_plan, file_index, fit_to_budget, focus_files, Options, RankedDef};
use toporepo::tags::{Kind, Tag};

fn def(name: &str, line: usize, end_line: usize, start_byte: usize) -> Tag {
    Tag {
        name: name.to_string(),
        kind: Kind::Def,
        line,
        end_line,
        start_byte,
        end_byte: start_byte,
        doc: None,
        doc_line: None,
    }
}

fn lines(n: usize, prefix: &str) -> String {
    (1..=n).map(|i| format!("{prefix}{i}\n")).collect()
}

fn index() -> Index {
    Index::from_files(vec![
        FileData { path: "/r/b.rs".into(), rel: "b.rs".into(), source: lines(9, "b"), tags: vec![def("x", 2, 2, 0), def("y", 5, 5, 0)] },
        FileData { path: "/r/a.rs".into(), rel: "a.rs".into(), source: lines(9, "a"), tags: vec![def("z", 3, 3, 0)] },
        FileData { path: "/r/dir/c.rs".into(), rel: "dir/c.rs".into(), source: lines(9, "c"), tags: vec![def("w", 1, 1, 0)] },
    ])
}

fn rd(file: usize, tag: usize, rank: usize) -> RankedDef {
    RankedDef { file, tag, rank }
}

fn plan() -> Vec<((usize, usize), Vec<usize>)> {
    vec![((0, 0), vec![2]), ((0, 1), vec![5, 6]), ((1, 0), vec![3]), ((2, 0), vec![1])]
}

#[test]
fn assemble_groups_by_file_and_orders_by_rank_then_path() {
    let idx = index();
    let defs = vec![rd(0, 1, 0), rd(1, 0, 1), rd(0, 0, 2), rd(2, 0, 1)];
    let out = assemble_map(&idx, &defs, defs.len(), &plan());
    let expected = "b.rs\n  2| b2\n\n  5| b5\n  6| b6\n\na.rs\n  3| a3\n\ndir/c.rs\n  1| c1\n";
    assert_eq!(out, expected);
}

#[test]
fn assemble_of_prefix_only_uses_those_defs() {
    let idx = index();
    let defs = vec![rd(1, 0, 0), rd(0, 0, 1)];
    assert_eq!(assemble_map(&idx, &defs, 1, &plan()), "a.rs\n  3| a3\n");
    assert_eq!(assemble_map(&idx, &defs, 0, &plan()), "");
}

#[test]
fn assemble_skips_files_without_planned_lines() {
    let idx = index();
    let defs = vec![rd(2, 0, 0), rd(1, 0, 1)];
    let p = vec![((1, 0), vec![3])];
    assert_eq!(assemble_map(&idx, &defs, 2, &p), "a.rs\n  3| a3\n");
}

#[test]
fn budget_fit_takes_longest_fitting_prefix() {
    let idx = index();
    let defs = vec![rd(1, 0, 0), rd(0, 0, 1), rd(2, 0, 2)];
    let one = assemble_map(&idx, &defs, 1, &plan());
    let two = assemble_map(&idx, &defs, 2, &plan());
    let three = assemble_map(&idx, &defs, 3, &plan());
    assert_eq!(fit_to_budget(&idx, &defs, &plan(), approx_tokens(&two)), two);
    assert_eq!(fit_to_budget(&idx, &defs, &plan(), approx_tokens(&three)), three);
    assert_eq!(fit_to_budget(&idx, &defs, &plan(), 10_000), three);
    assert_eq!(fit_to_budget(&idx, &defs, &plan(), approx_tokens(&one)), one);
}

#[test]
fn budget_too_small_still_emits_best_definition() {
    let idx = index();
    let defs = vec![rd(1, 0, 0), rd(0, 0, 1)];
    assert_eq!(fit_to_budget(&idx, &defs, &plan(), 0), "a.rs\n  3| a3\n");
}

#[test]
fn budget_fit_of_nothing_is_empty() {
    assert_eq!(fit_to_budget(&index(), &Vec::new(), &plan(), 100), "");
}

#[test]
fn file_lookup_normalizes_backslashes() {
    let idx = index();
    assert_eq!(file_index(&idx, "dir\\c.rs"), Some(2));
    assert_eq!(file_index(&idx, "a.rs"), Some(1));
    assert_eq!(file_index(&idx, "missing.rs"), None);
}

#[test]
fn focus_files_dedup_in_mention_order() {
    let idx = index();
    let names = vec!["dir\\c.rs".to_string(), "a.rs".to_string(), "x".to_string(), "dir/c.rs".to_string()];
    assert_eq!(focus_files(&idx, &names, true), vec![2, 1]);
    assert_eq!(focus_files(&idx, &names, false), vec![1, 2]);
}

#[test]
fn plan_for_selected_definitions() {
    let src = "struct S;\n\nimpl S {\n    fn new() -> S {\n        S\n    }\n}\n";
    let start = src.find("fn new").unwrap();
    let idx = Index::from_files(vec![
        FileData { path: "/r/s.rs".into(), rel: "s.rs".into(), source: src.into(), tags: vec![def("S", 1, 1, 0), def("new", 4, 6, start)] },
        FileData { path: "/r/notes.txt".into(), rel: "notes.txt".into(), source: "hi\n".into(), tags: vec![def("hi", 1, 1, 0)] },
    ]);
    let names = [
        "rust-tags.scm", "python-tags.scm", "javascript-tags.scm", "typescript-tags.scm", "go-tags.scm",
        "java-tags.scm", "c-tags.scm", "cpp-tags.scm", "csharp-tags.scm", "ruby-tags.scm",
    ];
    let queries = TagQueries { files: names.iter().map(|n| (n.to_string(), String::new())).collect() };
    let defs = vec![rd(0, 1, 0), rd(1, 0, 1), rd(0, 0, 2)];
    let mut p = build_plan(&idx, &defs, &queries);
    p.sort();
    assert_eq!(p, vec![((0, 0), vec![1]), ((0, 1), vec![3, 4, 6])]);
}

#[test]
fn options_hold_the_request() {
    let o = Options {
        query: Some("where".into()),
        tokens: 1024,
        mentioned_idents: vec![],
        mentioned_files: vec!["a.rs".into()],
        model: None,
        no_cache: false,
        verbose: true,
    };
    assert_eq!(o.tokens, 1024);
    assert_eq!(o.mentioned_files.len(), 1);
}

#[test]
fn longer_prefix_never_gives_shorter_map() {
    let idx = index();
    let defs = vec![rd(1, 0, 0), rd(0, 1, 1), rd(0, 0, 1), rd(2, 0, 3)];
    let mut prev = 0;
    for n in 0..=defs.len() {
        let len = assemble_map(&idx, &defs, n, &plan()).chars().count();
        assert!(len >= prev);
        prev = len;
    }
}
