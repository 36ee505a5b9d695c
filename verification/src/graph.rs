//! Reference graph inputs: which identifiers connect which files, and the
//! weighting factors of each identifier.
//!
//! An edge runs from a file that references an identifier to every other file
//! that defines it.  Its weight is the product of the identifier's factors
//! (x10 if mentioned, x10 if snake/kebab/camel case, x0.1 if `_`-prefixed,
//! x0.1 if defined in more than five files), x50 when the referencing file is
//! in the chat, and the square root of the reference count.

use vstd::prelude::*;
use crate::index::{count_refs, def_files, def_files_exact, has_tag, ref_files, ref_files_exact, Index};
use crate::tags::{Kind, TagView};
use crate::text::{
    char_lowercase, char_uppercase, chars_eq, chars_of, contains_char, is_lowercase, is_uppercase, slice_chars,
};

verus! {

/// Drops leading `c`s.
pub open spec fn trim_start_char(s: Seq<char>, c: char) -> Seq<char>
    decreases s.len(),
{
    if s.len() > 0 && s[0] == c {
        trim_start_char(s.drop_first(), c)
    } else {
        s
    }
}

/// Drops trailing `c`s.
pub open spec fn trim_end_char(s: Seq<char>, c: char) -> Seq<char>
    decreases s.len(),
{
    if s.len() > 0 && s.last() == c {
        trim_end_char(s.drop_last(), c)
    } else {
        s
    }
}

/// A lower-case character directly followed by an upper-case one.
pub open spec fn has_camel_hump(s: Seq<char>) -> bool {
    exists|i: int| 0 <= i < s.len() - 1 && char_lowercase(#[trigger] s[i]) && char_uppercase(s[i + 1])
}

/// snake_case (an inner `_`), kebab-case (a `-`) or camelCase.
pub open spec fn structured_name(name: Seq<char>) -> bool {
    trim_end_char(trim_start_char(name, '_'), '_').contains('_') || name.contains('-') || has_camel_hump(name)
}

proof fn lemma_trim_start_char(s: Seq<char>, c: char, k: int)
    requires
        0 <= k <= s.len(),
        forall|j: int| 0 <= j < k ==> s[j] == c,
        k == s.len() || s[k] != c,
    ensures
        trim_start_char(s, c) == s.skip(k),
    decreases k,
{
    if k == 0 {
        assert(s.skip(0) == s);
    } else {
        let t = s.drop_first();
        assert forall|j: int| 0 <= j < k - 1 implies t[j] == c by {
            assert(t[j] == s[j + 1]);
        }
        lemma_trim_start_char(t, c, k - 1);
        assert(t.skip(k - 1) == s.skip(k));
    }
}

proof fn lemma_trim_end_char(s: Seq<char>, c: char, k: int)
    requires
        0 <= k <= s.len(),
        forall|j: int| k <= j < s.len() ==> s[j] == c,
        k == 0 || s[k - 1] != c,
    ensures
        trim_end_char(s, c) == s.take(k),
    decreases s.len() - k,
{
    if k == s.len() {
        assert(s.take(k) == s);
    } else {
        let t = s.drop_last();
        assert forall|j: int| k <= j < t.len() implies t[j] == c by {
            assert(t[j] == s[j]);
        }
        lemma_trim_end_char(t, c, k);
        assert(t.take(k) == s.take(k));
    }
}

fn trim_underscores(s: &Vec<char>) -> (r: Vec<char>)
    ensures
        r@ == trim_end_char(trim_start_char(s@, '_'), '_'),
{
    let mut a: usize = 0;
    while a < s.len() && s[a] == '_'
        invariant
            a <= s.len(),
            forall|j: int| 0 <= j < a ==> s@[j] == '_',
        decreases s.len() - a,
    {
        a = a + 1;
    }
    proof {
        lemma_trim_start_char(s@, '_', a as int);
    }
    let mut b: usize = s.len();
    while b > a && s[b - 1] == '_'
        invariant
            a <= b <= s.len(),
            forall|j: int| b <= j < s.len() ==> s@[j] == '_',
        decreases b,
    {
        b = b - 1;
    }
    let ghost t = s@.skip(a as int);
    proof {
        assert forall|j: int| (b - a) <= j < t.len() implies t[j] == '_' by {
            assert(t[j] == s@[a + j]);
        }
        if b > a {
            assert(t[b - a - 1] == s@[b - 1]);
        }
        lemma_trim_end_char(t, '_', (b - a) as int);
        assert(t.take((b - a) as int) =~= s@.subrange(a as int, b as int));
    }
    slice_chars(s, a, b)
}

/// snake_case / kebab-case / camelCase detection.
pub fn is_structured_name(name: &str) -> (b: bool)
    ensures
        b == structured_name(name@),
{
    let nc = chars_of(name);
    let trimmed = trim_underscores(&nc);
    if contains_char(&trimmed, '_') || contains_char(&nc, '-') {
        return true;
    }
    let mut i: usize = 0;
    while nc.len() > 0 && i < nc.len() - 1
        invariant
            nc@ == name@,
            i <= nc@.len(),
            forall|j: int| 0 <= j < i && j < nc@.len() - 1 ==> !(char_lowercase(#[trigger] nc@[j]) && char_uppercase(nc@[j + 1])),
        decreases nc@.len() - i,
    {
        if is_lowercase(nc[i]) && is_uppercase(nc[i + 1]) {
            assert(char_lowercase(nc@[i as int]) && char_uppercase(nc@[i + 1]));
            return true;
        }
        i = i + 1;
    }
    false
}

/// Which weighting factors apply to an identifier.
#[derive(Debug, Clone, Copy, PartialEq, Eq, Structural)]
pub struct IdentFactors {
    /// The caller mentioned the identifier (x10).
    pub mentioned: bool,
    /// snake/kebab/camel case (x10).
    pub structured: bool,
    /// `_`-prefixed (x0.1).
    pub private: bool,
    /// Defined in more than five files (x0.1).
    pub common: bool,
}

pub open spec fn strs_view(v: Seq<String>) -> Seq<Seq<char>> {
    v.map_values(|s: String| s@)
}

pub open spec fn ident_factors_of(name: Seq<char>, n_def_files: nat, mentioned: Seq<Seq<char>>) -> IdentFactors {
    IdentFactors {
        mentioned: mentioned.contains(name),
        structured: structured_name(name),
        private: name.len() > 0 && name[0] == '_',
        common: n_def_files > 5,
    }
}

fn contains_str(list: &Vec<String>, name: &Vec<char>) -> (b: bool)
    ensures
        b == strs_view(list@).contains(name@),
{
    let mut i: usize = 0;
    while i < list.len()
        invariant
            i <= list@.len(),
            forall|j: int| 0 <= j < i ==> list@[j]@ != name@,
        decreases list@.len() - i,
    {
        if chars_eq(&chars_of(list[i].as_str()), name) {
            assert(strs_view(list@)[i as int] == name@);
            return true;
        }
        i = i + 1;
    }
    assert forall|j: int| 0 <= j < strs_view(list@).len() implies strs_view(list@)[j] != name@ by {
        assert(strs_view(list@)[j] == list@[j]@);
    }
    false
}

/// The weighting factors of identifier `name`, defined in `n_def_files` files.
pub fn ident_factors(name: &str, n_def_files: usize, mentioned: &Vec<String>) -> (f: IdentFactors)
    ensures
        f == ident_factors_of(name@, n_def_files as nat, strs_view(mentioned@)),
{
    let nc = chars_of(name);
    IdentFactors {
        mentioned: contains_str(mentioned, &nc),
        structured: is_structured_name(name),
        private: nc.len() > 0 && nc[0] == '_',
        common: n_def_files > 5,
    }
}


/// One identifier's contribution to the directed edge `referencer -> definer`.
#[derive(Debug, Clone, Copy, PartialEq, Eq, Structural)]
pub struct EdgeTerm {
    pub referencer: usize,
    pub definer: usize,
    pub factors: IdentFactors,
    /// The referencing file is in the chat (x50).
    pub chat: bool,
    /// Number of references to the identifier in the referencing file.
    pub count: usize,
}

/// The files that define `name`, from a define table (first entry wins).
pub open spec fn lookup_defs(d: Seq<(String, Vec<usize>)>, name: Seq<char>) -> Option<Seq<usize>>
    decreases d.len(),
{
    if d.len() == 0 {
        None
    } else if d[0].0@ == name {
        Some(d[0].1@)
    } else {
        lookup_defs(d.drop_first(), name)
    }
}

/// Terms from one referencing file to every other defining file.
pub open spec fn terms_to_definers(
    ref_file: usize,
    count: usize,
    defs: Seq<usize>,
    f: IdentFactors,
    chat: bool,
) -> Seq<EdgeTerm>
    decreases defs.len(),
{
    if defs.len() == 0 {
        seq![]
    } else {
        let rest = terms_to_definers(ref_file, count, defs.drop_last(), f, chat);
        if defs.last() == ref_file {
            rest
        } else {
            rest.push(EdgeTerm { referencer: ref_file, definer: defs.last(), factors: f, chat, count })
        }
    }
}

/// Terms of one identifier: for each referencing file in order.
pub open spec fn terms_of_refs(refs: Seq<(usize, usize)>, defs: Seq<usize>, f: IdentFactors, chat_files: Seq<usize>) -> Seq<
    EdgeTerm,
>
    decreases refs.len(),
{
    if refs.len() == 0 {
        seq![]
    } else {
        let (rf, c) = refs.last();
        terms_of_refs(refs.drop_last(), defs, f, chat_files) + terms_to_definers(rf, c, defs, f, chat_files.contains(rf))
    }
}

/// All edge terms of an index: identifiers in reference-table order; those
/// without a definition contribute nothing.
pub open spec fn edge_terms_of(
    refs: Seq<(String, Vec<(usize, usize)>)>,
    defines: Seq<(String, Vec<usize>)>,
    mentioned: Seq<Seq<char>>,
    chat_files: Seq<usize>,
) -> Seq<EdgeTerm>
    decreases refs.len(),
{
    if refs.len() == 0 {
        seq![]
    } else {
        let rest = edge_terms_of(refs.drop_last(), defines, mentioned, chat_files);
        let e = refs.last();
        match lookup_defs(defines, e.0@) {
            None => rest,
            Some(defs) => rest + terms_of_refs(e.1@, defs, ident_factors_of(e.0@, defs.len(), mentioned), chat_files),
        }
    }
}

fn find_defs(defines: &Vec<(String, Vec<usize>)>, name: &Vec<char>) -> (r: Option<usize>)
    ensures
        match r {
            Some(p) => p < defines@.len() && lookup_defs(defines@, name@) == Some(defines@[p as int].1@),
            None => lookup_defs(defines@, name@) is None,
        },
{
    let mut i: usize = 0;
    assert(defines@.skip(0) =~= defines@);
    while i < defines.len()
        invariant
            i <= defines@.len(),
            lookup_defs(defines@, name@) == lookup_defs(defines@.skip(i as int), name@),
        decreases defines@.len() - i,
    {
        let ghost rest = defines@.skip(i as int);
        assert(rest[0] == defines@[i as int]);
        assert(rest.drop_first() =~= defines@.skip(i + 1));
        if chars_eq(&chars_of(defines[i].0.as_str()), name) {
            return Some(i);
        }
        i = i + 1;
    }
    None
}

fn contains_index(v: &Vec<usize>, x: usize) -> (b: bool)
    ensures
        b == v@.contains(x),
{
    let mut i: usize = 0;
    while i < v.len()
        invariant
            i <= v@.len(),
            forall|j: int| 0 <= j < i ==> v@[j] != x,
        decreases v@.len() - i,
    {
        if v[i] == x {
            return true;
        }
        i = i + 1;
    }
    false
}

/// Every (referencer, definer) contribution of the index's identifiers, in
/// reference-table order.  The graph's edge weights are built from these.
pub fn edge_terms(index: &Index, mentioned: &Vec<String>, chat_files: &Vec<usize>) -> (r: Vec<EdgeTerm>)
    ensures
        r@ == edge_terms_of(index.references@, index.defines@, strs_view(mentioned@), chat_files@),
{
    let ghost refs = index.references@;
    let ghost m = strs_view(mentioned@);
    let mut out: Vec<EdgeTerm> = Vec::new();
    let mut e: usize = 0;
    assert(refs.take(0) =~= Seq::<(String, Vec<(usize, usize)>)>::empty());
    while e < index.references.len()
        invariant
            e <= refs.len(),
            refs == index.references@,
            m == strs_view(mentioned@),
            out@ == edge_terms_of(refs.take(e as int), index.defines@, m, chat_files@),
        decreases refs.len() - e,
    {
        let entry = &index.references[e];
        proof {
            assert(refs.take(e + 1).drop_last() =~= refs.take(e as int));
            assert(refs.take(e + 1).last() == *entry);
        }
        let nc = chars_of(entry.0.as_str());
        match find_defs(&index.defines, &nc) {
            None => {},
            Some(p) => {
                let defs = &index.defines[p].1;
                let f = ident_factors(entry.0.as_str(), defs.len(), mentioned);
                let ghost base = out@;
                let ghost rs = entry.1@;
                let mut k: usize = 0;
                assert(rs.take(0) =~= Seq::<(usize, usize)>::empty());
                assert(base + Seq::<EdgeTerm>::empty() =~= base);
                while k < entry.1.len()
                    invariant
                        k <= rs.len(),
                        rs == entry.1@,
                        out@ == base + terms_of_refs(rs.take(k as int), defs@, f, chat_files@),
                    decreases rs.len() - k,
                {
                    let (rf, c) = entry.1[k];
                    let chat = contains_index(chat_files, rf);
                    let ghost mid = out@;
                    let mut d: usize = 0;
                    assert(defs@.take(0) =~= Seq::<usize>::empty());
                    assert(mid + Seq::<EdgeTerm>::empty() =~= mid);
                    while d < defs.len()
                        invariant
                            d <= defs@.len(),
                            out@ == mid + terms_to_definers(rf, c, defs@.take(d as int), f, chat),
                        decreases defs@.len() - d,
                    {
                        assert(defs@.take(d + 1).drop_last() =~= defs@.take(d as int));
                        if defs[d] != rf {
                            out.push(EdgeTerm { referencer: rf, definer: defs[d], factors: f, chat, count: c });
                        }
                        proof {
                            lemma_concat_push(mid, terms_to_definers(rf, c, defs@.take(d as int), f, chat));
                        }
                        d = d + 1;
                    }
                    assert(defs@.take(defs@.len() as int) =~= defs@);
                    proof {
                        assert(rs.take(k + 1).drop_last() =~= rs.take(k as int));
                        assert(rs.take(k + 1).last() == (rf, c));
                        let a = terms_of_refs(rs.take(k as int), defs@, f, chat_files@);
                        assert(base + (a + terms_to_definers(rf, c, defs@, f, chat)) =~= (base + a) + terms_to_definers(rf, c, defs@, f, chat));
                    }
                    k = k + 1;
                }
                assert(rs.take(rs.len() as int) =~= rs);
            },
        }
        e = e + 1;
    }
    assert(refs.take(refs.len() as int) =~= refs);
    out
}

/// The weighting factors that identifier `name` has in `ts`: mentioned by the
/// caller, snake/kebab/camel case, `_`-prefixed, and defined in more than five
/// files of `ts`.
pub open spec fn factors_in(ts: Seq<Seq<TagView>>, mentioned: Seq<Seq<char>>, name: Seq<char>) -> IdentFactors {
    IdentFactors {
        mentioned: mentioned.contains(name),
        structured: structured_name(name),
        private: name.len() > 0 && name[0] == '_',
        common: def_files(ts, name).len() > 5,
    }
}

/// An edge term joins two different files of `ts`: the referencer refers
/// `count` (at least once) times to a name that the definer defines, the
/// term's factors are that name's factors, and `chat` tells whether the
/// referencer is a chat file.
pub open spec fn joins_files(ts: Seq<Seq<TagView>>, mentioned: Seq<Seq<char>>, chat_files: Seq<usize>, e: EdgeTerm) -> bool {
    &&& e.referencer != e.definer
    &&& e.referencer < ts.len() && e.definer < ts.len()
    &&& e.count > 0
    &&& e.chat == chat_files.contains(e.referencer)
    &&& exists|name: Seq<char>| #[trigger] has_tag(ts[e.definer as int], Kind::Def, name)
        && count_refs(ts[e.referencer as int], name) == e.count
        && e.factors == factors_in(ts, mentioned, name)
}

pub open spec fn all_join_files(ts: Seq<Seq<TagView>>, mentioned: Seq<Seq<char>>, chat_files: Seq<usize>, es: Seq<EdgeTerm>) -> bool {
    forall|k: int| 0 <= k < es.len() ==> joins_files(ts, mentioned, chat_files, #[trigger] es[k])
}

proof fn lemma_all_join_concat(ts: Seq<Seq<TagView>>, mentioned: Seq<Seq<char>>, chat_files: Seq<usize>, a: Seq<EdgeTerm>, b: Seq<EdgeTerm>)
    requires
        all_join_files(ts, mentioned, chat_files, a),
        all_join_files(ts, mentioned, chat_files, b),
    ensures
        all_join_files(ts, mentioned, chat_files, a + b),
{
    assert forall|k: int| 0 <= k < (a + b).len() implies joins_files(ts, mentioned, chat_files, #[trigger] (a + b)[k]) by {
        if k < a.len() {
            assert((a + b)[k] == a[k]);
        } else {
            assert((a + b)[k] == b[k - a.len()]);
        }
    }
}

proof fn lemma_terms_to_definers_join(
    ts: Seq<Seq<TagView>>,
    mentioned: Seq<Seq<char>>,
    chat_files: Seq<usize>,
    name: Seq<char>,
    ref_file: usize,
    count: usize,
    defs: Seq<usize>,
    f: IdentFactors,
)
    requires
        ref_file < ts.len(),
        count > 0,
        f == factors_in(ts, mentioned, name),
        count == count_refs(ts[ref_file as int], name),
        forall|k: int| 0 <= k < defs.len() ==> defs[k] < ts.len() && has_tag(ts[defs[k] as int], Kind::Def, name),
    ensures
        all_join_files(ts, mentioned, chat_files, terms_to_definers(ref_file, count, defs, f, chat_files.contains(ref_file))),
    decreases defs.len(),
{
    if defs.len() > 0 {
        let init = defs.drop_last();
        assert forall|k: int| 0 <= k < init.len() implies init[k] < ts.len() && has_tag(ts[init[k] as int], Kind::Def, name) by {
            assert(init[k] == defs[k]);
        }
        lemma_terms_to_definers_join(ts, mentioned, chat_files, name, ref_file, count, init, f);
        let rest = terms_to_definers(ref_file, count, init, f, chat_files.contains(ref_file));
        if defs.last() != ref_file {
            let e = EdgeTerm { referencer: ref_file, definer: defs.last(), factors: f, chat: chat_files.contains(ref_file), count };
            assert(has_tag(ts[defs[defs.len() - 1] as int], Kind::Def, name));
            assert(joins_files(ts, mentioned, chat_files, e));
            assert forall|k: int| 0 <= k < rest.push(e).len() implies joins_files(ts, mentioned, chat_files, #[trigger] rest.push(e)[k]) by {
                if k < rest.len() {
                    assert(rest.push(e)[k] == rest[k]);
                }
            }
        }
    }
}

proof fn lemma_terms_of_refs_join(
    ts: Seq<Seq<TagView>>,
    mentioned: Seq<Seq<char>>,
    chat_files: Seq<usize>,
    name: Seq<char>,
    refs: Seq<(usize, usize)>,
    defs: Seq<usize>,
    f: IdentFactors,
)
    requires
        f == factors_in(ts, mentioned, name),
        forall|k: int| 0 <= k < refs.len() ==> refs[k].0 < ts.len() && refs[k].1 > 0 && refs[k].1 == count_refs(
            ts[refs[k].0 as int],
            name,
        ),
        forall|k: int| 0 <= k < defs.len() ==> defs[k] < ts.len() && has_tag(ts[defs[k] as int], Kind::Def, name),
    ensures
        all_join_files(ts, mentioned, chat_files, terms_of_refs(refs, defs, f, chat_files)),
    decreases refs.len(),
{
    if refs.len() > 0 {
        let init = refs.drop_last();
        assert forall|k: int| 0 <= k < init.len() implies init[k].0 < ts.len() && init[k].1 > 0 && init[k].1 == count_refs(
            ts[init[k].0 as int],
            name,
        ) by {
            assert(init[k] == refs[k]);
        }
        lemma_terms_of_refs_join(ts, mentioned, chat_files, name, init, defs, f);
        let (rf, c) = refs.last();
        assert(refs[refs.len() - 1] == (rf, c));
        lemma_terms_to_definers_join(ts, mentioned, chat_files, name, rf, c, defs, f);
        lemma_all_join_concat(
            ts,
            mentioned,
            chat_files,
            terms_of_refs(init, defs, f, chat_files),
            terms_to_definers(rf, c, defs, f, chat_files.contains(rf)),
        );
    }
}

proof fn lemma_lookup_defs_exact(ts: Seq<Seq<TagView>>, d: Seq<(String, Vec<usize>)>, name: Seq<char>)
    requires
        forall|p: int| 0 <= p < d.len() ==> (#[trigger] d[p]).1@ == def_files(ts, d[p].0@),
    ensures
        lookup_defs(d, name) matches Some(x) ==> x == def_files(ts, name),
    decreases d.len(),
{
    if d.len() > 0 && d[0].0@ != name {
        let t = d.drop_first();
        assert forall|p: int| 0 <= p < t.len() implies (#[trigger] t[p]).1@ == def_files(ts, t[p].0@) by {
            assert(t[p] == d[p + 1]);
        }
        lemma_lookup_defs_exact(ts, t, name);
    }
}

/// Every edge term of an index joins a file that refers to a name with a
/// different file that defines it, with the referencing file's count of
/// references, whether it is a chat file, and that name's weighting factors
/// (among them: defined in more than five files of the index).
pub proof fn edge_terms_join_files(
    ts: Seq<Seq<TagView>>,
    refs: Seq<(String, Vec<(usize, usize)>)>,
    defines: Seq<(String, Vec<usize>)>,
    mentioned: Seq<Seq<char>>,
    chat_files: Seq<usize>,
)
    requires
        ts.len() <= usize::MAX,
        forall|f: int| 0 <= f < ts.len() ==> (#[trigger] ts[f]).len() < usize::MAX,
        forall|p: int| 0 <= p < defines.len() ==> (#[trigger] defines[p]).1@ == def_files(ts, defines[p].0@),
        forall|p: int| 0 <= p < refs.len() ==> (#[trigger] refs[p]).1@ == ref_files(ts, refs[p].0@),
    ensures
        all_join_files(ts, mentioned, chat_files, edge_terms_of(refs, defines, mentioned, chat_files)),
    decreases refs.len(),
{
    if refs.len() > 0 {
        let init = refs.drop_last();
        assert forall|p: int| 0 <= p < init.len() implies (#[trigger] init[p]).1@ == ref_files(ts, init[p].0@) by {
            assert(init[p] == refs[p]);
        }
        edge_terms_join_files(ts, init, defines, mentioned, chat_files);
        let e = refs.last();
        assert(refs[refs.len() - 1] == e);
        lemma_lookup_defs_exact(ts, defines, e.0@);
        if let Some(defs) = lookup_defs(defines, e.0@) {
            def_files_exact(ts, e.0@);
            ref_files_exact(ts, e.0@);
            let f = ident_factors_of(e.0@, defs.len(), mentioned);
            assert(f == factors_in(ts, mentioned, e.0@));
            lemma_terms_of_refs_join(ts, mentioned, chat_files, e.0@, e.1@, defs, f);
            lemma_all_join_concat(
                ts,
                mentioned,
                chat_files,
                edge_terms_of(init, defines, mentioned, chat_files),
                terms_of_refs(e.1@, defs, f, chat_files),
            );
        }
    }
}

proof fn lemma_concat_push(a: Seq<EdgeTerm>, b: Seq<EdgeTerm>)
    ensures
        forall|x: EdgeTerm| #[trigger] (a + b).push(x) == a + b.push(x),
{
    assert forall|x: EdgeTerm| #[trigger] (a + b).push(x) == a + b.push(x) by {
        assert((a + b).push(x) =~= a + b.push(x));
    }
}

} // verus!
