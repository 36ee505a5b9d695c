//! Important-file detection: well-known project files and entry points get a
//! rank nudge so they surface in the map even with a weak graph signal.

use vstd::prelude::*;
use crate::text::{chars_eq, chars_of, lacks, slice_chars};

verus! {

/// File names that count as important.
pub open spec fn important_names() -> Seq<Seq<char>> {
    seq![
        "README.md"@,
        "README.txt"@,
        "readme.md"@,
        "README.rst"@,
        "README"@,
        "requirements.txt"@,
        "Pipfile"@,
        "pyproject.toml"@,
        "setup.py"@,
        "setup.cfg"@,
        "package.json"@,
        "yarn.lock"@,
        "package-lock.json"@,
        "npm-shrinkwrap.json"@,
        "Dockerfile"@,
        "docker-compose.yml"@,
        "docker-compose.yaml"@,
        ".gitignore"@,
        ".gitattributes"@,
        ".dockerignore"@,
        "Makefile"@,
        "makefile"@,
        "CMakeLists.txt"@,
        "LICENSE"@,
        "LICENSE.txt"@,
        "LICENSE.md"@,
        "COPYING"@,
        "CHANGELOG.md"@,
        "CHANGELOG.txt"@,
        "HISTORY.md"@,
        "CONTRIBUTING.md"@,
        "CODE_OF_CONDUCT.md"@,
        ".env"@,
        ".env.example"@,
        ".env.local"@,
        "tox.ini"@,
        "pytest.ini"@,
        ".pytest.ini"@,
        ".flake8"@,
        ".pylintrc"@,
        "mypy.ini"@,
        "go.mod"@,
        "go.sum"@,
        "Cargo.toml"@,
        "Cargo.lock"@,
        "pom.xml"@,
        "build.gradle"@,
        "build.gradle.kts"@,
        "composer.json"@,
        "composer.lock"@,
        "Gemfile"@,
        "Gemfile.lock"@,
        "main.rs"@,
        "lib.rs"@,
        "main.py"@,
        "__init__.py"@,
        "index.js"@,
        "index.ts"@
    ]
}

/// Position just after the last `/` or `\` in `s` (0 if there is none).
pub open spec fn segment_start(s: Seq<char>) -> int
    decreases s.len(),
{
    if s.len() == 0 {
        0
    } else if s.last() == '/' || s.last() == '\\' {
        s.len() as int
    } else {
        segment_start(s.drop_last())
    }
}

/// The last path segment of `s`: the text after its last `/` or `\`.
pub open spec fn last_segment(s: Seq<char>) -> Seq<char> {
    s.skip(segment_start(s))
}

proof fn lemma_segment_start(s: Seq<char>)
    ensures
        0 <= segment_start(s) <= s.len(),
    decreases s.len(),
{
    if s.len() > 0 {
        lemma_segment_start(s.drop_last());
    }
}

proof fn lemma_segment_start_append(x: Seq<char>, n: Seq<char>)
    requires
        lacks(n, '/'),
        lacks(n, '\\'),
    ensures
        segment_start(x + n) == segment_start(x),
    decreases n.len(),
{
    if n.len() == 0 {
        assert(x + n =~= x);
    } else {
        assert((x + n).last() == n[n.len() - 1]);
        assert((x + n).drop_last() =~= x + n.drop_last());
        assert(lacks(n.drop_last(), '/') && lacks(n.drop_last(), '\\')) by {
            assert forall|k: int| 0 <= k < n.drop_last().len() implies n.drop_last()[k] != '/' && n.drop_last()[k] != '\\' by {
                assert(n.drop_last()[k] == n[k]);
            }
        }
        lemma_segment_start_append(x, n.drop_last());
    }
}

/// Only the file name decides importance: a path whose last segment is
/// `name` (under any directory) is judged as `name` itself.
pub proof fn importance_by_file_name(dir: Seq<char>, name: Seq<char>)
    requires
        lacks(name, '/'),
        lacks(name, '\\'),
    ensures
        last_segment(dir.push('/') + name) == name,
        last_segment(name) == name,
{
    lemma_segment_start_append(dir.push('/'), name);
    lemma_segment_start_append(Seq::<char>::empty(), name);
    assert(Seq::<char>::empty() + name =~= name);
    assert(dir.push('/').drop_last() == dir);
    assert((dir.push('/') + name).skip(dir.len() + 1int) =~= name);
    assert(name.skip(0) =~= name);
}

/// Whether the file named by `rel` (its last path segment) is a well-known
/// project file or entry point.
pub fn is_important(rel: &str) -> (b: bool)
    ensures
        b == important_names().contains(last_segment(rel@)),
{
    let rc = chars_of(rel);
    let mut i: usize = rc.len();
    assert(rc@.take(rc@.len() as int) =~= rc@);
    while i > 0 && rc[i - 1] != '/' && rc[i - 1] != '\\'
        invariant
            i <= rc@.len(),
            segment_start(rc@) == segment_start(rc@.take(i as int)),
        decreases i,
    {
        assert(rc@.take(i as int).drop_last() =~= rc@.take(i - 1));
        i = i - 1;
    }
    proof {
        lemma_segment_start(rc@);
        if i == 0 {
            assert(rc@.take(0) =~= Seq::<char>::empty());
        }
    }
    let name = slice_chars(&rc, i, rc.len());
    assert(name@ =~= last_segment(rel@));
    let names: [&str; 58] = [
        "README.md",
        "README.txt",
        "readme.md",
        "README.rst",
        "README",
        "requirements.txt",
        "Pipfile",
        "pyproject.toml",
        "setup.py",
        "setup.cfg",
        "package.json",
        "yarn.lock",
        "package-lock.json",
        "npm-shrinkwrap.json",
        "Dockerfile",
        "docker-compose.yml",
        "docker-compose.yaml",
        ".gitignore",
        ".gitattributes",
        ".dockerignore",
        "Makefile",
        "makefile",
        "CMakeLists.txt",
        "LICENSE",
        "LICENSE.txt",
        "LICENSE.md",
        "COPYING",
        "CHANGELOG.md",
        "CHANGELOG.txt",
        "HISTORY.md",
        "CONTRIBUTING.md",
        "CODE_OF_CONDUCT.md",
        ".env",
        ".env.example",
        ".env.local",
        "tox.ini",
        "pytest.ini",
        ".pytest.ini",
        ".flake8",
        ".pylintrc",
        "mypy.ini",
        "go.mod",
        "go.sum",
        "Cargo.toml",
        "Cargo.lock",
        "pom.xml",
        "build.gradle",
        "build.gradle.kts",
        "composer.json",
        "composer.lock",
        "Gemfile",
        "Gemfile.lock",
        "main.rs",
        "lib.rs",
        "main.py",
        "__init__.py",
        "index.js",
        "index.ts"
    ];
    let ghost ns = important_names();
    assert(names@.map_values(|x: &str| x@) =~= ns);
    let mut k: usize = 0;
    while k < 58
        invariant
            k <= 58,
            ns == important_names(),
            name@ == last_segment(rel@),
            names@.map_values(|x: &str| x@) == ns,
            forall|j: int| 0 <= j < k ==> ns[j] != name@,
        decreases 58 - k,
    {
        let cand = chars_of(names[k]);
        assert(cand@ == ns[k as int]);
        if chars_eq(&cand, &name) {
            assert(ns[k as int] == name@);
            assert(important_names()[k as int] == last_segment(rel@));
            assert(important_names().contains(last_segment(rel@)));
            return true;
        }
        k = k + 1;
    }
    false
}

} // verus!
