//! Outline rendering: show selected definition lines together with their
//! enclosing scope headers, with blank-line separators at gaps.

use vstd::prelude::*;
use crate::lang::{ancestor_chains, chains_view, run_ancestor_chains, Lang};
use crate::tags::{Tag, TagView};
use crate::text::{
    chars_of, contains_chars, contains_seq, decimal, decimal_chars, extend_chars, lines, lines_of, pad_left,
    pad_left_chars, seqs_of, string_of,
};

verus! {

/// One ancestor of a definition in the syntax tree.
pub struct Scope {
    /// 0-based rows of the node's first and last character.
    pub start_row: usize,
    pub end_row: usize,
    /// Whether the node itself has a parent (the root has none).
    pub has_parent: bool,
    /// The node's grammar kind (e.g. `impl_item`).
    pub kind: String,
}

pub struct ScopeView {
    pub start_row: usize,
    pub end_row: usize,
    pub has_parent: bool,
    pub kind: Seq<char>,
}

impl View for Scope {
    type V = ScopeView;

    open spec fn view(&self) -> ScopeView {
        ScopeView {
            start_row: self.start_row,
            end_row: self.end_row,
            has_parent: self.has_parent,
            kind: self.kind@,
        }
    }
}


/// Node kinds whose header line is worth showing contain one of these words.
pub open spec fn scope_keywords() -> Seq<Seq<char>> {
    seq!["function"@, "method"@, "class"@, "struct"@, "enum"@, "impl"@, "interface"@, "module"@, "namespace"@, "trait"@]
}

pub open spec fn scope_kind(kind: Seq<char>) -> bool {
    exists|i: int| 0 <= i < scope_keywords().len() && contains_seq(kind, #[trigger] scope_keywords()[i])
}

/// A node kind is a scope kind exactly when it contains one of the words
/// function, method, class, struct, enum, impl, interface, module, namespace
/// or trait.
pub proof fn scope_kind_words(kind: Seq<char>)
    ensures
        scope_kind(kind) <==> {
        ||| contains_seq(kind, "function"@)
        ||| contains_seq(kind, "method"@)
        ||| contains_seq(kind, "class"@)
        ||| contains_seq(kind, "struct"@)
        ||| contains_seq(kind, "enum"@)
        ||| contains_seq(kind, "impl"@)
        ||| contains_seq(kind, "interface"@)
        ||| contains_seq(kind, "module"@)
        ||| contains_seq(kind, "namespace"@)
        ||| contains_seq(kind, "trait"@)
        },
{
    let ks = scope_keywords();
    assert(ks[0] == "function"@);
    assert(ks[1] == "method"@);
    assert(ks[2] == "class"@);
    assert(ks[3] == "struct"@);
    assert(ks[4] == "enum"@);
    assert(ks[5] == "impl"@);
    assert(ks[6] == "interface"@);
    assert(ks[7] == "module"@);
    assert(ks[8] == "namespace"@);
    assert(ks[9] == "trait"@);
    if scope_kind(kind) {
        let i = choose|i: int| 0 <= i < ks.len() && contains_seq(kind, #[trigger] ks[i]);
        assert(0 <= i < 10);
    }
}

/// Only these ancestor node kinds produce useful scope-header lines.
pub fn is_scope_kind(kind: &str) -> (b: bool)
    ensures
        b == scope_kind(kind@),
{
    let kc = chars_of(kind);
    let kws: [&str; 10] = ["function", "method", "class", "struct", "enum", "impl", "interface", "module", "namespace", "trait"];
    let ghost ks = scope_keywords();
    assert(kws@.map_values(|k: &str| k@) =~= ks);
    let mut i: usize = 0;
    while i < 10
        invariant
            i <= 10,
            kc@ == kind@,
            ks == scope_keywords(),
            kws@.map_values(|k: &str| k@) == ks,
            forall|j: int| 0 <= j < i ==> !contains_seq(kind@, #[trigger] ks[j]),
        decreases 10 - i,
    {
        let kw = chars_of(kws[i]);
        assert(kw@ == ks[i as int]);
        if contains_chars(&kc, &kw) {
            return true;
        }
        i = i + 1;
    }
    false
}

/// An ancestor whose first line is shown above a definition on line `line`:
/// a multi-line, non-root scope node that starts above it.
pub open spec fn scope_header(p: ScopeView, line: usize) -> bool {
    &&& p.end_row > p.start_row
    &&& p.start_row + 1 < line
    &&& p.has_parent
    &&& scope_kind(p.kind)
}

/// Whether line `l` (1-based) is shown for a definition whose ancestors are `chain`:
/// its name line, its last line, its doc lines, and the first line of each
/// enclosing scope header.
pub open spec fn shows_line(t: TagView, chain: Seq<ScopeView>, l: int) -> bool {
    ||| l == t.line
    ||| l == t.end_line
    ||| (t.doc_line matches Some(dl) && dl <= l < t.line)
    ||| exists|a: int| 0 <= a < chain.len() && scope_header(#[trigger] chain[a], t.line) && l == chain[a].start_row + 1
}

pub open spec fn strictly_increasing(s: Seq<usize>) -> bool {
    forall|i: int, j: int| 0 <= i < j < s.len() ==> s[i] < s[j]
}

/// `s` lists, in increasing order, exactly the lines `shows_line` selects.
pub open spec fn is_line_plan(s: Seq<usize>, t: TagView, chain: Seq<ScopeView>) -> bool {
    &&& strictly_increasing(s)
    &&& forall|y: usize| s.contains(y) <==> shows_line(t, chain, y as int)
}

/// Some ancestor before position `a` is a shown scope header on line `y`.
pub open spec fn header_below(cv: Seq<ScopeView>, line: usize, a: int, y: usize) -> bool {
    exists|q: int| 0 <= q < a && scope_header(#[trigger] cv[q], line) && y == cv[q].start_row + 1
}

proof fn lemma_header_below_step(cv: Seq<ScopeView>, line: usize, a: int, y: usize)
    requires
        0 <= a,
    ensures
        header_below(cv, line, a + 1, y) <==> (header_below(cv, line, a, y) || (scope_header(cv[a], line) && y
            == cv[a].start_row + 1)),
{
    if header_below(cv, line, a + 1, y) {
        let q = choose|q: int| 0 <= q < a + 1 && scope_header(#[trigger] cv[q], line) && y == cv[q].start_row + 1;
        if q < a {
            assert(header_below(cv, line, a, y));
        }
    }
    if header_below(cv, line, a, y) {
        let q = choose|q: int| 0 <= q < a && scope_header(#[trigger] cv[q], line) && y == cv[q].start_row + 1;
        assert(0 <= q < a + 1);
    }
    if scope_header(cv[a], line) && y == cv[a].start_row + 1 {
        assert(0 <= a < a + 1 && scope_header(cv[a], line));
    }
}

/// Inserts `x` into an increasing vector unless it is already there.
pub(crate) fn insert_line(v: &mut Vec<usize>, x: usize)
    requires
        strictly_increasing(old(v)@),
    ensures
        strictly_increasing(final(v)@),
        forall|y: usize| final(v)@.contains(y) <==> (old(v)@.contains(y) || y == x),
{
    let mut j: usize = v.len();
    while j > 0 && v[j - 1] > x
        invariant
            j <= v@.len(),
            strictly_increasing(v@),
            v@ == old(v)@,
            forall|m: int| j <= m < v@.len() ==> v@[m] > x,
        decreases j,
    {
        j = j - 1;
    }
    if j > 0 && v[j - 1] == x {
        assert(v@[j - 1] == x);
        assert(v@.contains(x));
        return;
    }
    let ghost before = v@;
    assert(before == old(v)@);
    v.insert(j, x);
    assert forall|a: int, b: int| 0 <= a < b < v@.len() implies v@[a] < v@[b] by {
        if b < j {
            assert(v@[a] == before[a] && v@[b] == before[b]);
        } else if b == j {
            assert(v@[a] == before[a]);
        } else if a == j as int {
            assert(v@[b] == before[b - 1]);
        } else if a < j {
            assert(v@[a] == before[a] && v@[b] == before[b - 1]);
        } else {
            assert(v@[a] == before[a - 1] && v@[b] == before[b - 1]);
        }
    }
    assert forall|y: usize| v@.contains(y) <==> (before.contains(y) || y == x) by {
        if v@.contains(y) {
            let k = choose|k: int| 0 <= k < v@.len() && v@[k] == y;
            if k < j {
                assert(before[k] == y);
            } else if k > j {
                assert(before[k - 1] == y);
            }
        }
        if before.contains(y) {
            let k = choose|k: int| 0 <= k < before.len() && before[k] == y;
            if k < j {
                assert(v@[k] == y);
            } else {
                assert(v@[k + 1] == y);
            }
        }
        if y == x {
            assert(v@[j as int] == y);
        }
    }
    assert(forall|y: usize| v@.contains(y) <==> (old(v)@.contains(y) || y == x));
}

/// The display lines of one definition, given its ancestor chain.
fn plan_one(t: &Tag, chain: &Vec<Scope>) -> (r: Vec<usize>)
    ensures
        is_line_plan(r@, t@, chain@.map_values(|s: Scope| s@)),
{
    let ghost cv = chain@.map_values(|s: Scope| s@);
    let ghost tv = t@;
    let mut r: Vec<usize> = Vec::new();
    insert_line(&mut r, t.line);
    insert_line(&mut r, t.end_line);
    match t.doc_line {
        Some(dl) => {
            let mut l: usize = dl;
            while l < t.line
                invariant
                    dl <= l <= t.line || (l == dl && dl >= t.line),
                    strictly_increasing(r@),
                    forall|y: usize| r@.contains(y) <==> (y == t.line || y == t.end_line || (dl <= y < l)),
                    t.doc_line == Some(dl),
                decreases t.line - l,
            {
                insert_line(&mut r, l);
                l = l + 1;
            }
        },
        None => {},
    }
    let ghost base = r@;
    let mut a: usize = 0;
    while a < chain.len()
        invariant
            a <= chain@.len(),
            cv == chain@.map_values(|s: Scope| s@),
            tv == t@,
            strictly_increasing(r@),
            forall|y: usize| #[trigger] r@.contains(y) <==> (base.contains(y) || header_below(cv, tv.line, a as int, y)),
        decreases chain@.len() - a,
    {
        let p = &chain[a];
        assert(cv[a as int] == p@);
        let ghost before = r@;
        let take = p.end_row > p.start_row && p.start_row + 1 < t.line && p.has_parent && is_scope_kind(p.kind.as_str());
        if take {
            insert_line(&mut r, p.start_row + 1);
        }
        assert(take == scope_header(cv[a as int], tv.line));
        assert forall|y: usize| #[trigger] r@.contains(y) <==> (base.contains(y) || header_below(cv, tv.line, a + 1, y)) by {
            lemma_header_below_step(cv, tv.line, a as int, y);
            assert(before.contains(y) <==> (base.contains(y) || header_below(cv, tv.line, a as int, y)));
        }
        a = a + 1;
    }
    proof {
        assert forall|y: usize| r@.contains(y) <==> shows_line(tv, cv, y as int) by {
            assert(r@.contains(y) <==> (base.contains(y) || header_below(cv, tv.line, cv.len() as int, y)));
        }
    }
    r
}


pub open spec fn def_bytes(defs: Seq<(usize, &Tag)>) -> Seq<usize> {
    defs.map_values(|d: (usize, &Tag)| d.1.start_byte)
}

/// For each definition (keyed by its index into the file's `tags`), compute the
/// 1-based line numbers to display: the signature line, the last line, the
/// doc lines, plus the start line of every enclosing multi-line scope (so
/// methods show their class/impl header).  When the file cannot be parsed,
/// each definition shows just its name line.
pub fn plan_lines(lang: &Lang, source: &str, defs: &Vec<(usize, &Tag)>) -> (r: Vec<(usize, Vec<usize>)>)
    ensures
        r@.len() == defs@.len(),
        forall|k: int| 0 <= k < r@.len() ==> (#[trigger] r@[k]).0 == defs@[k].0,
        match ancestor_chains(lang.lang_id(), source@, def_bytes(defs@)) {
            None => forall|k: int| 0 <= k < r@.len() ==> (#[trigger] r@[k]).1@ == seq![defs@[k].1.line],
            Some(ch) => forall|k: int| 0 <= k < r@.len() ==> is_line_plan((#[trigger] r@[k]).1@, defs@[k].1@, ch[k]),
        },
{
    let mut bytes: Vec<usize> = Vec::new();
    let mut k: usize = 0;
    while k < defs.len()
        invariant
            k <= defs@.len(),
            bytes@ == def_bytes(defs@).take(k as int),
        decreases defs@.len() - k,
    {
        bytes.push(defs[k].1.start_byte);
        k = k + 1;
        assert(bytes@ =~= def_bytes(defs@).take(k as int));
    }
    assert(bytes@ =~= def_bytes(defs@));
    proof {
        use_type_invariant(lang);
    }
    let chains = run_ancestor_chains(lang, source, &bytes);
    plan_with_chains(defs, &chains)
}

/// The display lines of each definition given the ancestor chains of its
/// start (one per definition), or just its name line when there are none.
pub fn plan_with_chains(defs: &Vec<(usize, &Tag)>, chains: &Option<Vec<Vec<Scope>>>) -> (r: Vec<(usize, Vec<usize>)>)
    requires
        chains matches Some(ch) ==> ch@.len() == defs@.len(),
    ensures
        r@.len() == defs@.len(),
        forall|k: int| 0 <= k < r@.len() ==> (#[trigger] r@[k]).0 == defs@[k].0,
        match chains {
            None => forall|k: int| 0 <= k < r@.len() ==> (#[trigger] r@[k]).1@ == seq![defs@[k].1.line],
            Some(ch) => forall|k: int|
                0 <= k < r@.len() ==> is_line_plan((#[trigger] r@[k]).1@, defs@[k].1@, chains_view(ch@)[k]),
        },
{
    let mut r: Vec<(usize, Vec<usize>)> = Vec::new();
    let mut k: usize = 0;
    match chains {
        None => {
            while k < defs.len()
                invariant
                    k <= defs@.len(),
                    r@.len() == k,
                    forall|q: int| 0 <= q < k ==> (#[trigger] r@[q]).0 == defs@[q].0 && r@[q].1@ == seq![defs@[q].1.line],
                decreases defs@.len() - k,
            {
                let mut one: Vec<usize> = Vec::new();
                one.push(defs[k].1.line);
                r.push((defs[k].0, one));
                k = k + 1;
            }
        },
        Some(ch) => {
            let ghost chv = chains_view(ch@);
            while k < defs.len()
                invariant
                    k <= defs@.len(),
                    ch@.len() == defs@.len(),
                    chv == chains_view(ch@),
                    r@.len() == k,
                    forall|q: int| 0 <= q < k ==> (#[trigger] r@[q]).0 == defs@[q].0 && is_line_plan(r@[q].1@, defs@[q].1@, chv[q]),
                decreases defs@.len() - k,
            {
                let plan = plan_one(defs[k].1, &ch[k]);
                r.push((defs[k].0, plan));
                k = k + 1;
            }
        },
    }
    r
}

/// Width of the line-number column: the digits of the line count, at least 3.
pub open spec fn number_width(n_lines: nat) -> nat {
    if decimal(n_lines).len() > 3 {
        decimal(n_lines).len()
    } else {
        3
    }
}

/// The rendered rows for `lines` (1-based numbers into `src`), where `prev` is
/// the previously rendered line: lines outside the file are skipped, a blank
/// row marks a gap, and each shown line is `<number right-aligned>| <text>`.
pub open spec fn render_rows(lines: Seq<usize>, src: Seq<Seq<char>>, width: nat, prev: Option<usize>) -> Seq<char>
    decreases lines.len(),
{
    if lines.len() == 0 {
        seq![]
    } else {
        let ln = lines[0];
        let rest = lines.drop_first();
        if ln == 0 || ln > src.len() {
            render_rows(rest, src, width, prev)
        } else {
            let gap: Seq<char> = if prev matches Some(p) && ln > p + 1 { "\n"@ } else { seq![] };
            gap + pad_left(decimal(ln as nat), width) + "| "@ + src[ln - 1] + "\n"@ + render_rows(
                rest,
                src,
                width,
                Some(ln),
            )
        }
    }
}

/// One rendered file: its name line followed by the rows of `lines`; empty
/// when no lines are asked for.
pub open spec fn rendered_file(rel: Seq<char>, source: Seq<char>, lines: Seq<usize>) -> Seq<char> {
    if lines.len() == 0 {
        seq![]
    } else {
        let src = lines_of(source);
        rel + "\n"@ + render_rows(lines, src, number_width(src.len()), None)
    }
}

proof fn lemma_rows_prev(lines: Seq<usize>, src: Seq<Seq<char>>, width: nat, p1: Option<usize>, p2: Option<usize>)
    ensures
        render_rows(lines, src, width, p1).len() <= render_rows(lines, src, width, p2).len() + 1,
    decreases lines.len(),
{
    if lines.len() > 0 {
        let ln = lines[0];
        if ln == 0 || ln > src.len() {
            lemma_rows_prev(lines.drop_first(), src, width, p1, p2);
        } else {
            reveal_strlit("\n");
            let g1: Seq<char> = if p1 matches Some(p) && ln > p + 1 { "\n"@ } else { seq![] };
            let g2: Seq<char> = if p2 matches Some(p) && ln > p + 1 { "\n"@ } else { seq![] };
            assert(g1.len() <= g2.len() + 1);
        }
    }
}

proof fn lemma_rows_remove(lines: Seq<usize>, src: Seq<Seq<char>>, width: nat, prev: Option<usize>, i: int)
    requires
        0 <= i < lines.len(),
    ensures
        render_rows(lines.remove(i), src, width, prev).len() <= render_rows(lines, src, width, prev).len(),
    decreases lines.len(),
{
    let ln = lines[0];
    let rest = lines.drop_first();
    if i == 0 {
        assert(lines.remove(0) =~= rest);
        if !(ln == 0 || ln > src.len()) {
            lemma_rows_prev(rest, src, width, prev, Some(ln));
        }
    } else {
        assert(lines.remove(i)[0] == ln);
        assert(lines.remove(i).drop_first() =~= rest.remove(i - 1));
        if ln == 0 || ln > src.len() {
            lemma_rows_remove(rest, src, width, prev, i - 1);
        } else {
            lemma_rows_remove(rest, src, width, Some(ln), i - 1);
        }
    }
}

proof fn lemma_rows_subset(a: Seq<usize>, b: Seq<usize>, src: Seq<Seq<char>>, width: nat)
    requires
        strictly_increasing(a),
        strictly_increasing(b),
        forall|y: usize| a.contains(y) ==> b.contains(y),
    ensures
        render_rows(a, src, width, None).len() <= render_rows(b, src, width, None).len(),
    decreases b.len(),
{
    if exists|i: int| 0 <= i < b.len() && !a.contains(b[i]) {
        let i = choose|i: int| 0 <= i < b.len() && !a.contains(b[i]);
        let c = b.remove(i);
        assert(strictly_increasing(c)) by {
            assert forall|p: int, q: int| 0 <= p < q < c.len() implies c[p] < c[q] by {
                let pp = if p < i { p } else { p + 1 };
                let qq = if q < i { q } else { q + 1 };
                assert(c[p] == b[pp] && c[q] == b[qq]);
            }
        }
        assert forall|y: usize| a.contains(y) implies c.contains(y) by {
            let k = choose|k: int| 0 <= k < b.len() && b[k] == y;
            assert(k != i);
            if k < i {
                assert(c[k] == y);
            } else {
                assert(c[k - 1] == y);
            }
        }
        lemma_rows_subset(a, c, src, width);
        lemma_rows_remove(b, src, width, None, i);
    } else {
        assert forall|y: usize| a.contains(y) <==> b.contains(y) by {
            if b.contains(y) {
                let k = choose|k: int| 0 <= k < b.len() && b[k] == y;
                assert(a.contains(b[k]));
            }
        }
        crate::repomap::lemma_increasing_unique(a, b);
    }
}

/// Showing more lines of a file never makes its rendering shorter.
pub proof fn rendered_file_grows_with_lines(rel: Seq<char>, source: Seq<char>, a: Seq<usize>, b: Seq<usize>)
    requires
        strictly_increasing(a),
        strictly_increasing(b),
        forall|y: usize| a.contains(y) ==> b.contains(y),
    ensures
        rendered_file(rel, source, a).len() <= rendered_file(rel, source, b).len(),
        rendered_file(rel, source, a).len() > 0 ==> rendered_file(rel, source, b).len() > 0,
{
    if a.len() > 0 {
        assert(a.contains(a[0]));
        assert(b.contains(a[0]));
        let src = lines_of(source);
        lemma_rows_subset(a, b, src, number_width(src.len()));
    }
}

/// Render one file: `rel` header followed by the chosen `lines` (1-based,
/// increasing), with blank lines where lines are skipped.
pub fn render_file(rel: &str, source: &str, lines: &Vec<usize>) -> (r: String)
    requires
        strictly_increasing(lines@),
    ensures
        r@ == rendered_file(rel@, source@, lines@),
{
    if lines.len() == 0 {
        return String::new();
    }
    let sc = chars_of(source);
    let src = crate::text::lines(&sc);
    let ghost sv = seqs_of(src@);
    let digits = decimal_chars(src.len());
    let width: usize = if digits.len() > 3 { digits.len() } else { 3 };
    let mut out = chars_of(rel);
    out.push('\n');
    proof {
        reveal_strlit("\n");
    }
    let ghost full = rendered_file(rel@, source@, lines@);
    let ghost w = number_width(sv.len());
    assert(width == w);
    assert(lines@.skip(0) =~= lines@);
    let nl = chars_of("\n");
    let bar = chars_of("| ");
    let mut prev: Option<usize> = None;
    let mut i: usize = 0;
    while i < lines.len()
        invariant
            i <= lines@.len(),
            sv == seqs_of(src@),
            sv == lines_of(source@),
            width == w,
            nl@ == "\n"@,
            bar@ == "| "@,
            full == out@ + render_rows(lines@.skip(i as int), sv, w, prev),
        decreases lines@.len() - i,
    {
        let ln = lines[i];
        let ghost rest = lines@.skip(i as int);
        assert(rest[0] == ln);
        assert(rest.drop_first() =~= lines@.skip(i + 1));
        if ln == 0 || ln > src.len() {
        } else {
            let ghost before = out@;
            let gap = match prev {
                Some(p) => ln > p && ln - p > 1,
                None => false,
            };
            if gap {
                out.push('\n');
            }
            proof {
                reveal_strlit("\n");
            }
            let ghost g: Seq<char> = if prev matches Some(p) && ln > p + 1 { "\n"@ } else { seq![] };
            assert(out@ == before + g);
            let num = pad_left_chars(&decimal_chars(ln), width);
            extend_chars(&mut out, &num);
            extend_chars(&mut out, &bar);
            extend_chars(&mut out, &src[ln - 1]);
            extend_chars(&mut out, &nl);
            assert(sv[ln - 1] == src@[ln - 1]@);
            assert(out@ == before + g + pad_left(decimal(ln as nat), w) + "| "@ + sv[ln - 1] + "\n"@);
            prev = Some(ln);
        }
        i = i + 1;
    }
    assert(lines@.skip(lines@.len() as int) =~= Seq::<usize>::empty());
    assert(out@ + Seq::<char>::empty() =~= out@);
    string_of(&out)
}

/// Approximate token count (about 3.8 characters per token, rounded down) for
/// budget fitting.
pub open spec fn token_estimate(n_chars: nat) -> nat {
    (n_chars * 5) / 19
}

/// The estimate is the character count times 5/19, rounded down: it grows
/// with the text without bound, one token for every 3.8 characters.
pub proof fn token_estimate_bounds(n: nat)
    ensures
        token_estimate(n) * 19 <= n * 5,
        n * 5 < token_estimate(n) * 19 + 19,
{
    let t = token_estimate(n);
    assert(t * 19 <= n * 5 && n * 5 < t * 19 + 19) by (nonlinear_arith)
        requires t == (n * 5) / 19;
}

/// A longer text never counts as fewer tokens.
pub proof fn token_estimate_monotone(a: nat, b: nat)
    requires
        a <= b,
    ensures
        token_estimate(a) <= token_estimate(b),
{
    assert((a * 5) / 19 <= (b * 5) / 19) by (nonlinear_arith)
        requires a <= b;
}

pub fn approx_tokens(s: &str) -> (r: usize)
    ensures
        r == token_estimate(s@.len()),
        r * 19 <= s@.len() * 5 < r * 19 + 19,
{
    proof {
        token_estimate_bounds(s@.len());
    }
    let n: usize = chars_of(s).len();
    let q: usize = n / 19;
    let m: usize = n % 19;
    proof {
        assert(n == 19 * q + m) by (nonlinear_arith)
            requires q == n / 19, m == n % 19;
        assert((n * 5) / 19 == 5 * q + (5 * m) / 19) by (nonlinear_arith)
            requires n == 19 * q + m, 0 <= m < 19;
        assert(5 * q <= n) by (nonlinear_arith)
            requires n == 19 * q + m, 0 <= m;
    }
    5 * q + (5 * m) / 19
}

} // verus!
