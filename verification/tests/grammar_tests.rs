use toporepo::lang::TagQueries;
use toporepo::tags::{extract, Kind};

fn queries() -> TagQueries {
    let q = [
        ("rust-tags.scm", "(function_item name: (identifier) @name.definition.function)"),
        ("python-tags.scm", "(function_definition name: (identifier) @name.definition.function)"),
        ("javascript-tags.scm", "(function_declaration name: (identifier) @name.definition.function)"),
        ("typescript-tags.scm", "(interface_declaration name: (type_identifier) @name.definition.interface)"),
        ("go-tags.scm", "(function_declaration name: (identifier) @name.definition.function)"),
        ("java-tags.scm", "(class_declaration name: (identifier) @name.definition.class)"),
        ("c-tags.scm", "(function_declarator declarator: (identifier) @name.definition.function)"),
        ("cpp-tags.scm", "(class_specifier name: (type_identifier) @name.definition.class)"),
        ("csharp-tags.scm", "(class_declaration name: (identifier) @name.definition.class)"),
        ("ruby-tags.scm", "(method name: (identifier) @name.definition.method)"),
    ];
    TagQueries { files: q.iter().map(|(f, t)| (f.to_string(), t.to_string())).collect() }
}

fn one_def(path: &str, src: &str, name: &str) {
    let tags = extract(path, src, &queries());
    assert_eq!(tags.len(), 1, "{path}");
    assert_eq!(tags[0].name, name, "{path}");
    assert_eq!(tags[0].kind, Kind::Def, "{path}");
}

#[test]
fn each_grammar_parses_its_language() {
    one_def("a.rs", "fn f() {}\n", "f");
    one_def("a.py", "def g():\n    pass\n", "g");
    one_def("a.js", "function h() {}\n", "h");
    one_def("a.ts", "interface I { x: number }\n", "I");
    one_def("a.tsx", "interface J { y: string }\n", "J");
    one_def("a.go", "package main\n\nfunc k() {}\n", "k");
    one_def("A.java", "class A {}\n", "A");
    one_def("a.c", "int m(void) { return 0; }\n", "m");
    one_def("a.cpp", "class B {};\n", "B");
    one_def("a.cs", "class C {}\n", "C");
    one_def("a.rb", "def n\nend\n", "n");
}

#[test]
fn a_grammar_does_not_read_another_language() {
    // Python source read as Rust yields no Rust function items.
    assert!(extract("x.rs", "def g():\n    pass\n", &queries()).is_empty());
}
