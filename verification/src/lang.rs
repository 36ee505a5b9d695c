//! Language detection, tree-sitter grammars and the tag-query runs.

use streaming_iterator::StreamingIterator;
use tree_sitter::{Parser, Query, QueryCursor};
use vstd::prelude::*;
use crate::render::{Scope, ScopeView};
use crate::tags::{opt_str_view, RawCapture};
use crate::text::{ascii_lower_seq, chars_eq, chars_of, seqs_of, slice_chars, to_ascii_lower};
use crate::walk::{file_name, file_name_of};

verus! {

#[verifier::external_type_specification]
#[verifier::external_body]
pub struct ExLanguage(tree_sitter::Language);

/// The supported languages.
#[derive(Debug, Clone, Copy, PartialEq, Eq, Structural)]
pub enum LangId {
    Rust,
    Python,
    JavaScript,
    TypeScript,
    Tsx,
    Go,
    Java,
    C,
    Cpp,
    CSharp,
    Ruby,
}

/// Display name of a language.
pub open spec fn lang_name(id: LangId) -> Seq<char> {
    match id {
        LangId::Rust => "rust"@,
        LangId::Python => "python"@,
        LangId::JavaScript => "javascript"@,
        LangId::TypeScript => "typescript"@,
        LangId::Tsx => "tsx"@,
        LangId::Go => "go"@,
        LangId::Java => "java"@,
        LangId::C => "c"@,
        LangId::Cpp => "cpp"@,
        LangId::CSharp => "csharp"@,
        LangId::Ruby => "ruby"@,
    }
}

/// File name of the bundled tag query of a language.
pub open spec fn query_file(id: LangId) -> Seq<char> {
    match id {
        LangId::Rust => "rust-tags.scm"@,
        LangId::Python => "python-tags.scm"@,
        LangId::JavaScript => "javascript-tags.scm"@,
        LangId::TypeScript => "typescript-tags.scm"@,
        LangId::Tsx => "typescript-tags.scm"@,
        LangId::Go => "go-tags.scm"@,
        LangId::Java => "java-tags.scm"@,
        LangId::C => "c-tags.scm"@,
        LangId::Cpp => "cpp-tags.scm"@,
        LangId::CSharp => "csharp-tags.scm"@,
        LangId::Ruby => "ruby-tags.scm"@,
    }
}

/// Language of a (lower-case) file extension.
pub open spec fn lang_of_ext(e: Seq<char>) -> Option<LangId> {
    if e == "rs"@ {
        Some(LangId::Rust)
    } else if e == "py"@ || e == "pyi"@ {
        Some(LangId::Python)
    } else if e == "js"@ || e == "jsx"@ || e == "mjs"@ || e == "cjs"@ {
        Some(LangId::JavaScript)
    } else if e == "ts"@ || e == "mts"@ || e == "cts"@ {
        Some(LangId::TypeScript)
    } else if e == "tsx"@ {
        Some(LangId::Tsx)
    } else if e == "go"@ {
        Some(LangId::Go)
    } else if e == "java"@ {
        Some(LangId::Java)
    } else if e == "c"@ || e == "h"@ {
        Some(LangId::C)
    } else if e == "cpp"@ || e == "cc"@ || e == "cxx"@ || e == "hpp"@ || e == "hh"@ || e == "hxx"@ {
        Some(LangId::Cpp)
    } else if e == "cs"@ {
        Some(LangId::CSharp)
    } else if e == "rb"@ {
        Some(LangId::Ruby)
    } else {
        None
    }
}

/// Each supported extension names its language; every other extension none.
/// Each supported extension names its language.
pub proof fn extension_table(e: Seq<char>)
    ensures
        e == "rs"@ ==> lang_of_ext(e) == Some(LangId::Rust),
        e == "py"@ || e == "pyi"@ ==> lang_of_ext(e) == Some(LangId::Python),
        e == "js"@ || e == "jsx"@ || e == "mjs"@ || e == "cjs"@ ==> lang_of_ext(e) == Some(LangId::JavaScript),
        e == "ts"@ || e == "mts"@ || e == "cts"@ ==> lang_of_ext(e) == Some(LangId::TypeScript),
        e == "tsx"@ ==> lang_of_ext(e) == Some(LangId::Tsx),
        e == "go"@ ==> lang_of_ext(e) == Some(LangId::Go),
        e == "java"@ ==> lang_of_ext(e) == Some(LangId::Java),
        e == "c"@ || e == "h"@ ==> lang_of_ext(e) == Some(LangId::C),
        e == "cpp"@ || e == "cc"@ || e == "cxx"@ || e == "hpp"@ || e == "hh"@ || e == "hxx"@ ==> lang_of_ext(e) == Some(LangId::Cpp),
        e == "cs"@ ==> lang_of_ext(e) == Some(LangId::CSharp),
        e == "rb"@ ==> lang_of_ext(e) == Some(LangId::Ruby),
{
    reveal_strlit("rs");
    reveal_strlit("py");
    reveal_strlit("pyi");
    reveal_strlit("js");
    reveal_strlit("jsx");
    reveal_strlit("mjs");
    reveal_strlit("cjs");
    reveal_strlit("ts");
    reveal_strlit("mts");
    reveal_strlit("cts");
    reveal_strlit("tsx");
    reveal_strlit("go");
    reveal_strlit("java");
    reveal_strlit("c");
    reveal_strlit("h");
    reveal_strlit("cpp");
    reveal_strlit("cc");
    reveal_strlit("cxx");
    reveal_strlit("hpp");
    reveal_strlit("hh");
    reveal_strlit("hxx");
    reveal_strlit("cs");
    reveal_strlit("rb");
    if e == "rs"@ {
        assert(e.len() == 2 && e[0] == 'r' && e[1] == 's');
    }
    if e == "py"@ {
        assert(e.len() == 2 && e[0] == 'p' && e[1] == 'y');
    }
    if e == "pyi"@ {
        assert(e.len() == 3 && e[0] == 'p' && e[1] == 'y' && e[2] == 'i');
    }
    if e == "js"@ {
        assert(e.len() == 2 && e[0] == 'j' && e[1] == 's');
    }
    if e == "jsx"@ {
        assert(e.len() == 3 && e[0] == 'j' && e[1] == 's' && e[2] == 'x');
    }
    if e == "mjs"@ {
        assert(e.len() == 3 && e[0] == 'm' && e[1] == 'j' && e[2] == 's');
    }
    if e == "cjs"@ {
        assert(e.len() == 3 && e[0] == 'c' && e[1] == 'j' && e[2] == 's');
    }
    if e == "ts"@ {
        assert(e.len() == 2 && e[0] == 't' && e[1] == 's');
    }
    if e == "mts"@ {
        assert(e.len() == 3 && e[0] == 'm' && e[1] == 't' && e[2] == 's');
    }
    if e == "cts"@ {
        assert(e.len() == 3 && e[0] == 'c' && e[1] == 't' && e[2] == 's');
    }
    if e == "tsx"@ {
        assert(e.len() == 3 && e[0] == 't' && e[1] == 's' && e[2] == 'x');
    }
    if e == "go"@ {
        assert(e.len() == 2 && e[0] == 'g' && e[1] == 'o');
    }
    if e == "java"@ {
        assert(e.len() == 4 && e[0] == 'j' && e[1] == 'a' && e[2] == 'v' && e[3] == 'a');
    }
    if e == "c"@ {
        assert(e.len() == 1 && e[0] == 'c');
    }
    if e == "h"@ {
        assert(e.len() == 1 && e[0] == 'h');
    }
    if e == "cpp"@ {
        assert(e.len() == 3 && e[0] == 'c' && e[1] == 'p' && e[2] == 'p');
    }
    if e == "cc"@ {
        assert(e.len() == 2 && e[0] == 'c' && e[1] == 'c');
    }
    if e == "cxx"@ {
        assert(e.len() == 3 && e[0] == 'c' && e[1] == 'x' && e[2] == 'x');
    }
    if e == "hpp"@ {
        assert(e.len() == 3 && e[0] == 'h' && e[1] == 'p' && e[2] == 'p');
    }
    if e == "hh"@ {
        assert(e.len() == 2 && e[0] == 'h' && e[1] == 'h');
    }
    if e == "hxx"@ {
        assert(e.len() == 3 && e[0] == 'h' && e[1] == 'x' && e[2] == 'x');
    }
    if e == "cs"@ {
        assert(e.len() == 2 && e[0] == 'c' && e[1] == 's');
    }
    if e == "rb"@ {
        assert(e.len() == 2 && e[0] == 'r' && e[1] == 'b');
    }
}

impl LangId {
    /// Display name of the language.
    pub fn name(&self) -> (r: &'static str)
        ensures
            r@ == lang_name(*self),
    {
        match self {
            LangId::Rust => "rust",
            LangId::Python => "python",
            LangId::JavaScript => "javascript",
            LangId::TypeScript => "typescript",
            LangId::Tsx => "tsx",
            LangId::Go => "go",
            LangId::Java => "java",
            LangId::C => "c",
            LangId::Cpp => "cpp",
            LangId::CSharp => "csharp",
            LangId::Ruby => "ruby",
        }
    }

    /// File name of the language's bundled tag query.
    pub fn query_file(&self) -> (r: &'static str)
        ensures
            r@ == query_file(*self),
    {
        match self {
            LangId::Rust => "rust-tags.scm",
            LangId::Python => "python-tags.scm",
            LangId::JavaScript => "javascript-tags.scm",
            LangId::TypeScript => "typescript-tags.scm",
            LangId::Tsx => "typescript-tags.scm",
            LangId::Go => "go-tags.scm",
            LangId::Java => "java-tags.scm",
            LangId::C => "c-tags.scm",
            LangId::Cpp => "cpp-tags.scm",
            LangId::CSharp => "csharp-tags.scm",
            LangId::Ruby => "ruby-tags.scm",
        }
    }
}

fn lang_of_ext_exec(e: &Vec<char>) -> (r: Option<LangId>)
    ensures
        r == lang_of_ext(e@),
{
    if chars_eq(e, &chars_of("rs")) {
        return Some(LangId::Rust);
    }
    if chars_eq(e, &chars_of("py")) {
        return Some(LangId::Python);
    }
    if chars_eq(e, &chars_of("pyi")) {
        return Some(LangId::Python);
    }
    if chars_eq(e, &chars_of("js")) {
        return Some(LangId::JavaScript);
    }
    if chars_eq(e, &chars_of("jsx")) {
        return Some(LangId::JavaScript);
    }
    if chars_eq(e, &chars_of("mjs")) {
        return Some(LangId::JavaScript);
    }
    if chars_eq(e, &chars_of("cjs")) {
        return Some(LangId::JavaScript);
    }
    if chars_eq(e, &chars_of("ts")) {
        return Some(LangId::TypeScript);
    }
    if chars_eq(e, &chars_of("mts")) {
        return Some(LangId::TypeScript);
    }
    if chars_eq(e, &chars_of("cts")) {
        return Some(LangId::TypeScript);
    }
    if chars_eq(e, &chars_of("tsx")) {
        return Some(LangId::Tsx);
    }
    if chars_eq(e, &chars_of("go")) {
        return Some(LangId::Go);
    }
    if chars_eq(e, &chars_of("java")) {
        return Some(LangId::Java);
    }
    if chars_eq(e, &chars_of("c")) {
        return Some(LangId::C);
    }
    if chars_eq(e, &chars_of("h")) {
        return Some(LangId::C);
    }
    if chars_eq(e, &chars_of("cpp")) {
        return Some(LangId::Cpp);
    }
    if chars_eq(e, &chars_of("cc")) {
        return Some(LangId::Cpp);
    }
    if chars_eq(e, &chars_of("cxx")) {
        return Some(LangId::Cpp);
    }
    if chars_eq(e, &chars_of("hpp")) {
        return Some(LangId::Cpp);
    }
    if chars_eq(e, &chars_of("hh")) {
        return Some(LangId::Cpp);
    }
    if chars_eq(e, &chars_of("hxx")) {
        return Some(LangId::Cpp);
    }
    if chars_eq(e, &chars_of("cs")) {
        return Some(LangId::CSharp);
    }
    if chars_eq(e, &chars_of("rb")) {
        return Some(LangId::Ruby);
    }
    None
}

/// A tree-sitter grammar, tagged in specifications with the language it
/// parses.  Only the grammar functions below build one.
pub struct Grammar {
    language: tree_sitter::Language,
    id: Ghost<LangId>,
}

impl Grammar {
    /// The language whose grammar this is.
    pub closed spec fn lang_id(&self) -> LangId {
        self.id@
    }
}

/// `tree_sitter_rust::LANGUAGE` as a tree-sitter `Language`: the Rust grammar.
#[verifier::external_body]
fn grammar_rust() -> (g: Grammar)
    ensures
        g.lang_id() == LangId::Rust,
{
    Grammar { language: tree_sitter_rust::LANGUAGE.into(), id: Ghost(LangId::Rust) }
}

/// `tree_sitter_python::LANGUAGE` as a tree-sitter `Language`: the Python grammar.
#[verifier::external_body]
fn grammar_python() -> (g: Grammar)
    ensures
        g.lang_id() == LangId::Python,
{
    Grammar { language: tree_sitter_python::LANGUAGE.into(), id: Ghost(LangId::Python) }
}

/// `tree_sitter_javascript::LANGUAGE` as a tree-sitter `Language`: the JavaScript grammar.
#[verifier::external_body]
fn grammar_javascript() -> (g: Grammar)
    ensures
        g.lang_id() == LangId::JavaScript,
{
    Grammar { language: tree_sitter_javascript::LANGUAGE.into(), id: Ghost(LangId::JavaScript) }
}

/// `tree_sitter_typescript::LANGUAGE_TYPESCRIPT` as a tree-sitter `Language`: the TypeScript grammar.
#[verifier::external_body]
fn grammar_typescript() -> (g: Grammar)
    ensures
        g.lang_id() == LangId::TypeScript,
{
    Grammar { language: tree_sitter_typescript::LANGUAGE_TYPESCRIPT.into(), id: Ghost(LangId::TypeScript) }
}

/// `tree_sitter_typescript::LANGUAGE_TSX` as a tree-sitter `Language`: the Tsx grammar.
#[verifier::external_body]
fn grammar_tsx() -> (g: Grammar)
    ensures
        g.lang_id() == LangId::Tsx,
{
    Grammar { language: tree_sitter_typescript::LANGUAGE_TSX.into(), id: Ghost(LangId::Tsx) }
}

/// `tree_sitter_go::LANGUAGE` as a tree-sitter `Language`: the Go grammar.
#[verifier::external_body]
fn grammar_go() -> (g: Grammar)
    ensures
        g.lang_id() == LangId::Go,
{
    Grammar { language: tree_sitter_go::LANGUAGE.into(), id: Ghost(LangId::Go) }
}

/// `tree_sitter_java::LANGUAGE` as a tree-sitter `Language`: the Java grammar.
#[verifier::external_body]
fn grammar_java() -> (g: Grammar)
    ensures
        g.lang_id() == LangId::Java,
{
    Grammar { language: tree_sitter_java::LANGUAGE.into(), id: Ghost(LangId::Java) }
}

/// `tree_sitter_c::LANGUAGE` as a tree-sitter `Language`: the C grammar.
#[verifier::external_body]
fn grammar_c() -> (g: Grammar)
    ensures
        g.lang_id() == LangId::C,
{
    Grammar { language: tree_sitter_c::LANGUAGE.into(), id: Ghost(LangId::C) }
}

/// `tree_sitter_cpp::LANGUAGE` as a tree-sitter `Language`: the Cpp grammar.
#[verifier::external_body]
fn grammar_cpp() -> (g: Grammar)
    ensures
        g.lang_id() == LangId::Cpp,
{
    Grammar { language: tree_sitter_cpp::LANGUAGE.into(), id: Ghost(LangId::Cpp) }
}

/// `tree_sitter_c_sharp::LANGUAGE` as a tree-sitter `Language`: the CSharp grammar.
#[verifier::external_body]
fn grammar_csharp() -> (g: Grammar)
    ensures
        g.lang_id() == LangId::CSharp,
{
    Grammar { language: tree_sitter_c_sharp::LANGUAGE.into(), id: Ghost(LangId::CSharp) }
}

/// `tree_sitter_ruby::LANGUAGE` as a tree-sitter `Language`: the Ruby grammar.
#[verifier::external_body]
fn grammar_ruby() -> (g: Grammar)
    ensures
        g.lang_id() == LangId::Ruby,
{
    Grammar { language: tree_sitter_ruby::LANGUAGE.into(), id: Ghost(LangId::Ruby) }
}

/// The grammar of language `id`.
fn grammar(id: LangId) -> (g: Grammar)
    ensures
        g.lang_id() == id,
{
    match id {
        LangId::Rust => grammar_rust(),
        LangId::Python => grammar_python(),
        LangId::JavaScript => grammar_javascript(),
        LangId::TypeScript => grammar_typescript(),
        LangId::Tsx => grammar_tsx(),
        LangId::Go => grammar_go(),
        LangId::Java => grammar_java(),
        LangId::C => grammar_c(),
        LangId::Cpp => grammar_cpp(),
        LangId::CSharp => grammar_csharp(),
        LangId::Ruby => grammar_ruby(),
    }
}


/// Position of the last `c` in `s`, or -1.
pub open spec fn last_index_of(s: Seq<char>, c: char) -> int
    decreases s.len(),
{
    if s.len() == 0 {
        -1
    } else if s.last() == c {
        s.len() - 1
    } else {
        last_index_of(s.drop_last(), c)
    }
}

proof fn lemma_last_index_of(s: Seq<char>, c: char)
    ensures
        -1 <= last_index_of(s, c) < s.len(),
        last_index_of(s, c) >= 0 ==> s[last_index_of(s, c)] == c,
        forall|j: int| last_index_of(s, c) < j < s.len() ==> s[j] != c,
    decreases s.len(),
{
    if s.len() > 0 && s.last() != c {
        let t = s.drop_last();
        lemma_last_index_of(t, c);
        assert forall|j: int| last_index_of(s, c) < j < s.len() implies s[j] != c by {
            if j < s.len() - 1 {
                assert(s[j] == t[j]);
            }
        }
    }
}

/// Extension of a file name: the text after its last `.`, unless there is no
/// `.` or the only one starts the name.
pub open spec fn extension_of(name: Seq<char>) -> Option<Seq<char>> {
    let i = last_index_of(name, '.');
    if i <= 0 {
        None
    } else {
        Some(name.skip(i + 1))
    }
}

/// Language of a path, decided by its file name's extension (ASCII case ignored).
pub open spec fn language_of_path(path: Seq<char>) -> Option<LangId> {
    match file_name_of(path) {
        None => None,
        Some(name) => match extension_of(name) {
            None => None,
            Some(e) => lang_of_ext(ascii_lower_seq(e)),
        },
    }
}

/// A file named `stem.ext` (a non-empty stem, no `.` in `ext`) is in the
/// language of its extension, ASCII case ignored.
pub proof fn language_of_file_name(path: Seq<char>, stem: Seq<char>, ext: Seq<char>)
    requires
        file_name_of(path) == Some(stem + "."@ + ext),
        stem.len() > 0,
        !ext.contains('.'),
    ensures
        language_of_path(path) == lang_of_ext(ascii_lower_seq(ext)),
{
    reveal_strlit(".");
    let name = stem + "."@ + ext;
    let p = stem.len() as int;
    assert(name[p] == '.');
    lemma_last_index_of(name, '.');
    let i = last_index_of(name, '.');
    if i > p {
        assert(name[i] == ext[i - p - 1]);
        assert(ext.contains(name[i]));
    }
    assert(i == p);
    assert(name.skip(i + 1) =~= ext);
}

fn extension_exec(name: &Vec<char>) -> (r: Option<Vec<char>>)
    ensures
        match r {
            Some(e) => extension_of(name@) == Some(e@),
            None => extension_of(name@) is None,
        },
{
    let mut i: usize = name.len();
    assert(name@.take(name@.len() as int) =~= name@);
    while i > 0 && name[i - 1] != '.'
        invariant
            i <= name@.len(),
            last_index_of(name@, '.') == last_index_of(name@.take(i as int), '.'),
        decreases i,
    {
        assert(name@.take(i as int).drop_last() =~= name@.take(i - 1));
        i = i - 1;
    }
    proof {
        if i > 0 {
            assert(name@.take(i as int).last() == '.');
        } else {
            assert(name@.take(0) =~= Seq::<char>::empty());
        }
    }
    if i <= 1 {
        None
    } else {
        Some(slice_chars(name, i, name.len()))
    }
}

fn lower_chars(e: &Vec<char>) -> (r: Vec<char>)
    ensures
        r@ == ascii_lower_seq(e@),
{
    let mut r: Vec<char> = Vec::new();
    let mut i: usize = 0;
    while i < e.len()
        invariant
            i <= e.len(),
            r@ == ascii_lower_seq(e@).take(i as int),
        decreases e.len() - i,
    {
        r.push(to_ascii_lower(e[i]));
        i = i + 1;
        assert(r@ =~= ascii_lower_seq(e@).take(i as int));
    }
    assert(r@ =~= ascii_lower_seq(e@));
    r
}

/// The language of a path, if it is supported.
pub fn language_of(path: &str) -> (r: Option<LangId>)
    ensures
        r == language_of_path(path@),
{
    match file_name(path) {
        None => None,
        Some(name) => {
            let nc = chars_of(name.as_str());
            match extension_exec(&nc) {
                None => None,
                Some(e) => lang_of_ext_exec(&lower_chars(&e)),
            }
        },
    }
}

/// Tag-query texts by query file name (first entry wins).
pub struct TagQueries {
    pub files: Vec<(String, String)>,
}

pub open spec fn query_lookup(q: Seq<(String, String)>, file: Seq<char>) -> Option<Seq<char>>
    decreases q.len(),
{
    if q.len() == 0 {
        None
    } else if q[0].0@ == file {
        Some(q[0].1@)
    } else {
        query_lookup(q.drop_first(), file)
    }
}

/// Every supported language has its tag query.
pub open spec fn has_all_queries(q: Seq<(String, String)>) -> bool {
    &&& query_lookup(q, "rust-tags.scm"@) is Some
    &&& query_lookup(q, "python-tags.scm"@) is Some
    &&& query_lookup(q, "javascript-tags.scm"@) is Some
    &&& query_lookup(q, "typescript-tags.scm"@) is Some
    &&& query_lookup(q, "go-tags.scm"@) is Some
    &&& query_lookup(q, "java-tags.scm"@) is Some
    &&& query_lookup(q, "c-tags.scm"@) is Some
    &&& query_lookup(q, "cpp-tags.scm"@) is Some
    &&& query_lookup(q, "csharp-tags.scm"@) is Some
    &&& query_lookup(q, "ruby-tags.scm"@) is Some
}

impl TagQueries {
    /// The query text stored for `file`.
    pub fn get(&self, file: &str) -> (r: Option<String>)
        ensures
            opt_str_view(r) == query_lookup(self.files@, file@),
    {
        let fc = chars_of(file);
        let mut i: usize = 0;
        assert(self.files@.skip(0) =~= self.files@);
        while i < self.files.len()
            invariant
                i <= self.files@.len(),
                fc@ == file@,
                query_lookup(self.files@, file@) == query_lookup(self.files@.skip(i as int), file@),
            decreases self.files@.len() - i,
        {
            let ghost rest = self.files@.skip(i as int);
            assert(rest[0] == self.files@[i as int]);
            assert(rest.drop_first() =~= self.files@.skip(i + 1));
            if chars_eq(&chars_of(self.files[i].0.as_str()), &fc) {
                return Some(self.files[i].1.clone());
            }
            i = i + 1;
        }
        None
    }
}

/// A supported language: its tree-sitter grammar and its tag query.
///
/// Only `detect` builds one; its grammar is always the grammar of `id`.
pub struct Lang {
    id: LangId,
    grammar: Grammar,
    query: String,
}

impl Lang {
    /// The grammar is the grammar of the language.
    #[verifier::type_invariant]
    pub open spec fn grammar_matches(self) -> bool {
        self.grammar_id() == self.lang_id()
    }

    pub closed spec fn lang_id(&self) -> LangId {
        self.id
    }

    /// The language of the grammar this `Lang` parses with.
    pub closed spec fn grammar_id(&self) -> LangId {
        self.grammar.lang_id()
    }

    pub closed spec fn query_text(&self) -> Seq<char> {
        self.query@
    }

    pub fn id(&self) -> (r: LangId)
        ensures
            r == self.lang_id(),
    {
        self.id
    }

    /// Display name of the language.
    pub fn name(&self) -> (r: &'static str)
        ensures
            r@ == lang_name(self.lang_id()),
    {
        self.id.name()
    }

    /// The tag query run on files of this language.
    pub fn query(&self) -> (r: &str)
        ensures
            r@ == self.query_text(),
    {
        self.query.as_str()
    }
}

/// Resolve a file path to a supported language, or `None` if unsupported.
pub fn detect(path: &str, queries: &TagQueries) -> (r: Option<Lang>)
    requires
        has_all_queries(queries.files@),
    ensures
        match language_of_path(path@) {
            None => r is None,
            Some(id) => r matches Some(l) && l.lang_id() == id && l.grammar_id() == id && Some(l.query_text()) == query_lookup(
                queries.files@,
                query_file(id),
            ),
        },
{
    match language_of(path) {
        None => None,
        Some(id) => Some(Lang { id, grammar: grammar(id), query: query_text(queries, id.query_file()) }),
    }
}

/// The tag query stored under `file`.
pub fn query_text(queries: &TagQueries, file: &str) -> (r: String)
    requires
        query_lookup(queries.files@, file@) is Some,
    ensures
        r@ == query_lookup(queries.files@, file@).unwrap(),
{
    match queries.get(file) {
        Some(q) => q,
        None => String::new(),
    }
}


/// The capture names of a tag query compiled for a language (`None` when the
/// query is refused).
pub uninterp spec fn tag_query_names(lang: LangId, query: Seq<char>) -> Option<Seq<Seq<char>>>;

/// The captures of every match that a tag query finds in a source text, in
/// match order (`None` when the grammar, parse or query is refused).
pub uninterp spec fn tag_query_raw(lang: LangId, query: Seq<char>, source: Seq<char>) -> Option<Seq<Seq<RawCapture>>>;

pub open spec fn opt_strs_view(o: Option<Vec<String>>) -> Option<Seq<Seq<char>>> {
    match o {
        Some(v) => Some(v@.map_values(|s: String| s@)),
        None => None,
    }
}

pub open spec fn opt_raw_view(o: Option<Vec<Vec<RawCapture>>>) -> Option<Seq<Seq<RawCapture>>> {
    match o {
        Some(v) => Some(v@.map_values(|m: Vec<RawCapture>| m@)),
        None => None,
    }
}

/// tree-sitter `Query::new` and `Query::capture_names`: compiles the tag query
/// for the grammar and lists its capture names.  A function of the language
/// and the query.
#[verifier::external_body]
pub(crate) fn query_capture_names(lang: &Lang) -> (r: Option<Vec<String>>)
    ensures
        opt_strs_view(r) == tag_query_names(lang.grammar_id(), lang.query_text()),
{
    let query = Query::new(&lang.grammar.language, &lang.query).ok()?;
    Some(query.capture_names().iter().map(|n| n.to_string()).collect())
}

/// tree-sitter `Parser::parse`, `Query::new` and `QueryCursor::matches`: parses
/// `source` with the grammar, runs the tag query over the tree and lists, per
/// match, each capture's index into the capture names, byte range and rows.
/// A function of the language, the query and the source.
#[verifier::external_body]
pub(crate) fn run_tag_query(lang: &Lang, source: &str) -> (r: Option<Vec<Vec<RawCapture>>>)
    ensures
        opt_raw_view(r) == tag_query_raw(lang.grammar_id(), lang.query_text(), source@),
{
    let mut parser = Parser::new();
    parser.set_language(&lang.grammar.language).ok()?;
    let tree = parser.parse(source, None)?;
    let query = Query::new(&lang.grammar.language, &lang.query).ok()?;
    let mut cursor = QueryCursor::new();
    let mut out = Vec::new();
    let mut it = cursor.matches(&query, tree.root_node(), source.as_bytes());
    while let Some(m) = it.next() {
        out.push(m.captures().iter().map(|c| RawCapture::new(c.index as usize, c.node.start_byte(),
            c.node.end_byte(), c.node.start_position().row, c.node.end_position().row)).collect());
    }
    Some(out)
}

/// For each byte offset, the chain of ancestors (innermost first, starting at
/// the parent of the smallest node at that offset) in the syntax tree of
/// `source` (`None` when the grammar or parse is refused).
pub uninterp spec fn ancestor_chains(lang: LangId, source: Seq<char>, bytes: Seq<usize>) -> Option<
    Seq<Seq<ScopeView>>,
>;

pub open spec fn chains_view(v: Seq<Vec<Scope>>) -> Seq<Seq<ScopeView>> {
    v.map_values(|c: Vec<Scope>| c@.map_values(|s: Scope| s@))
}

/// tree-sitter `Parser::parse` and `Node::descendant_for_byte_range` /
/// `Node::parent`: parses `source` and, for each offset, walks up from the
/// parent of the node found there, recording each ancestor's rows, whether it
/// has a parent itself, and its kind.  One chain per offset; the result is a
/// function of the language, the source and the offsets.
#[verifier::external_body]
pub(crate) fn run_ancestor_chains(lang: &Lang, source: &str, bytes: &Vec<usize>) -> (r: Option<Vec<Vec<Scope>>>)
    ensures
        match r {
            Some(v) => ancestor_chains(lang.grammar_id(), source@, bytes@) == Some(chains_view(v@))
                && v@.len() == bytes@.len(),
            None => ancestor_chains(lang.grammar_id(), source@, bytes@) is None,
        },
{
    let mut parser = Parser::new();
    parser.set_language(&lang.grammar.language).ok()?;
    let tree = parser.parse(source, None)?;
    Some(bytes.iter().map(|&b| {
        let (mut chain, mut cur) = (Vec::new(), tree.root_node().descendant_for_byte_range(b, b).and_then(|n| n.parent()));
        while let Some(p) = cur {
            chain.push(Scope { start_row: p.start_position().row, end_row: p.end_position().row,
                has_parent: p.parent().is_some(), kind: p.kind().to_string() });
            cur = p.parent();
        }
        chain
    }).collect())
}

} // verus!
