use toporepo::lang::{detect, language_of, query_text, LangId, TagQueries};

fn queries() -> TagQueries {
    let names = [
        "rust-tags.scm",
        "python-tags.scm",
        "javascript-tags.scm",
        "typescript-tags.scm",
        "go-tags.scm",
        "java-tags.scm",
        "c-tags.scm",
        "cpp-tags.scm",
        "csharp-tags.scm",
        "ruby-tags.scm",
    ];
    TagQueries { files: names.iter().map(|n| (n.to_string(), format!("; query {n}"))).collect() }
}

#[test]
fn language_by_extension() {
    assert_eq!(language_of("src/main.rs"), Some(LangId::Rust));
    assert_eq!(language_of("a/b.pyi"), Some(LangId::Python));
    assert_eq!(language_of("x.MJS"), Some(LangId::JavaScript));
    assert_eq!(language_of("x.cts"), Some(LangId::TypeScript));
    assert_eq!(language_of("x.tsx"), Some(LangId::Tsx));
    assert_eq!(language_of("x.go"), Some(LangId::Go));
    assert_eq!(language_of("X.java"), Some(LangId::Java));
    assert_eq!(language_of("x.h"), Some(LangId::C));
    assert_eq!(language_of("x.hxx"), Some(LangId::Cpp));
    assert_eq!(language_of("x.cs"), Some(LangId::CSharp));
    assert_eq!(language_of("x.rb"), Some(LangId::Ruby));
}

#[test]
fn unsupported_or_missing_extension() {
    assert_eq!(language_of("README.md"), None);
    assert_eq!(language_of("Makefile"), None);
    assert_eq!(language_of(".rs"), None);
    assert_eq!(language_of("dir.rs/"), Some(LangId::Rust));
    assert_eq!(language_of("/"), None);
    assert_eq!(language_of("archive.tar.gz"), None);
}

#[test]
fn detect_picks_grammar_and_query() {
    let q = queries();
    let l = detect("a/b.tsx", &q).unwrap();
    assert_eq!(l.id(), LangId::Tsx);
    assert_eq!(l.name(), "tsx");
    assert_eq!(l.query(), "; query typescript-tags.scm");
    let r = detect("lib.rs", &q).unwrap();
    assert_eq!(r.name(), "rust");
    assert_eq!(r.query(), "; query rust-tags.scm");
    assert!(detect("notes.txt", &q).is_none());
}

#[test]
fn names_and_query_files() {
    assert_eq!(LangId::CSharp.name(), "csharp");
    assert_eq!(LangId::Cpp.query_file(), "cpp-tags.scm");
    assert_eq!(LangId::Tsx.query_file(), "typescript-tags.scm");
}

#[test]
fn query_text_and_lookup() {
    let q = queries();
    assert_eq!(query_text(&q, "go-tags.scm"), "; query go-tags.scm");
    assert_eq!(q.get("go-tags.scm").as_deref(), Some("; query go-tags.scm"));
    assert_eq!(q.get("nope.scm"), None);
}

#[test]
fn first_stored_query_wins() {
    let mut q = queries();
    q.files.push(("go-tags.scm".to_string(), "second".to_string()));
    assert_eq!(q.get("go-tags.scm").as_deref(), Some("; query go-tags.scm"));
}
