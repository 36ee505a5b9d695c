//! Repository index: per-file tags plus the define/reference tables that the
//! reference graph is built from.

use vstd::prelude::*;
use crate::lang::{has_all_queries, TagQueries};
use crate::tags::{extract, tags_of_file, tags_view, Kind, Tag, TagView};
use crate::walk::{rel, rel_of};
use crate::text::{chars_eq, chars_of, seqs_of};

verus! {

/// One indexed source file.
pub struct FileData {
    pub path: String,
    pub rel: String,
    pub source: String,
    pub tags: Vec<Tag>,
}

/// The index of a repository.
pub struct Index {
    pub files: Vec<FileData>,
    /// identifier -> indices of the files that define it (increasing, no repeats);
    /// identifiers in order of first definition.
    pub defines: Vec<(String, Vec<usize>)>,
    /// identifier -> (file index, number of references in that file), files
    /// increasing; identifiers in order of first reference.
    pub references: Vec<(String, Vec<(usize, usize)>)>,
}

/// Tags of each file.
pub open spec fn file_tags(files: Seq<FileData>) -> Seq<Seq<TagView>> {
    files.map_values(|f: FileData| tags_view(f.tags@))
}

/// Names of the tags of one kind, in order.
pub open spec fn tag_names(tags: Seq<TagView>, kind: Kind) -> Seq<Seq<char>>
    decreases tags.len(),
{
    if tags.len() == 0 {
        seq![]
    } else {
        let r = tag_names(tags.drop_last(), kind);
        if tags.last().kind == kind {
            r.push(tags.last().name)
        } else {
            r
        }
    }
}

/// Names of the tags of one kind over all files, in file order.
pub open spec fn kind_names(ts: Seq<Seq<TagView>>, kind: Kind) -> Seq<Seq<char>>
    decreases ts.len(),
{
    if ts.len() == 0 {
        seq![]
    } else {
        kind_names(ts.drop_last(), kind) + tag_names(ts.last(), kind)
    }
}

/// Each name once, at its first occurrence.
pub open spec fn first_occurrences(s: Seq<Seq<char>>) -> Seq<Seq<char>>
    decreases s.len(),
{
    if s.len() == 0 {
        seq![]
    } else {
        let r = first_occurrences(s.drop_last());
        if r.contains(s.last()) {
            r
        } else {
            r.push(s.last())
        }
    }
}

pub open spec fn has_tag(tags: Seq<TagView>, kind: Kind, name: Seq<char>) -> bool {
    exists|j: int| 0 <= j < tags.len() && (#[trigger] tags[j]).kind == kind && tags[j].name == name
}

/// Indices of the files with a definition of `name`, increasing.
pub open spec fn def_files(ts: Seq<Seq<TagView>>, name: Seq<char>) -> Seq<usize>
    decreases ts.len(),
{
    if ts.len() == 0 {
        seq![]
    } else {
        let r = def_files(ts.drop_last(), name);
        if has_tag(ts.last(), Kind::Def, name) {
            r.push((ts.len() - 1) as usize)
        } else {
            r
        }
    }
}

/// Number of references to `name` among `tags`.
pub open spec fn count_refs(tags: Seq<TagView>, name: Seq<char>) -> nat
    decreases tags.len(),
{
    if tags.len() == 0 {
        0
    } else {
        count_refs(tags.drop_last(), name) + if tags.last().kind == Kind::Ref && tags.last().name == name {
            1nat
        } else {
            0nat
        }
    }
}

/// (file index, reference count) for every file that references `name`, increasing.
pub open spec fn ref_files(ts: Seq<Seq<TagView>>, name: Seq<char>) -> Seq<(usize, usize)>
    decreases ts.len(),
{
    if ts.len() == 0 {
        seq![]
    } else {
        let r = ref_files(ts.drop_last(), name);
        let c = count_refs(ts.last(), name);
        if c > 0 {
            r.push(((ts.len() - 1) as usize, c as usize))
        } else {
            r
        }
    }
}

pub open spec fn def_keys(d: Seq<(String, Vec<usize>)>) -> Seq<Seq<char>> {
    d.map_values(|e: (String, Vec<usize>)| e.0@)
}

pub open spec fn ref_keys(d: Seq<(String, Vec<(usize, usize)>)>) -> Seq<Seq<char>> {
    d.map_values(|e: (String, Vec<(usize, usize)>)| e.0@)
}

/// The define table of `ts`.
pub open spec fn defines_of(ts: Seq<Seq<TagView>>, d: Seq<(String, Vec<usize>)>) -> bool {
    &&& def_keys(d) == first_occurrences(kind_names(ts, Kind::Def))
    &&& forall|p: int| 0 <= p < d.len() ==> (#[trigger] d[p]).1@ == def_files(ts, d[p].0@)
}

/// The reference table of `ts`.
pub open spec fn references_of(ts: Seq<Seq<TagView>>, d: Seq<(String, Vec<(usize, usize)>)>) -> bool {
    &&& ref_keys(d) == first_occurrences(kind_names(ts, Kind::Ref))
    &&& forall|p: int| 0 <= p < d.len() ==> (#[trigger] d[p]).1@ == ref_files(ts, d[p].0@)
}


// ---------------------------------------------------------------------------
// Lemmas on growing the tag prefix
// ---------------------------------------------------------------------------

/// `ts` with `t` added to the tags of its last file.
pub open spec fn add_tag(ts: Seq<Seq<TagView>>, t: TagView) -> Seq<Seq<TagView>> {
    ts.drop_last().push(ts.last().push(t))
}

proof fn lemma_add_tag_shape(ts: Seq<Seq<TagView>>, t: TagView)
    requires
        ts.len() > 0,
    ensures
        add_tag(ts, t).drop_last() == ts.drop_last(),
        add_tag(ts, t).last() == ts.last().push(t),
        add_tag(ts, t).len() == ts.len(),
{
}

proof fn lemma_tag_names_push(tags: Seq<TagView>, t: TagView, kind: Kind)
    ensures
        tag_names(tags.push(t), kind) == if t.kind == kind { tag_names(tags, kind).push(t.name) } else {
            tag_names(tags, kind)
        },
{
    assert(tags.push(t).drop_last() == tags);
}

proof fn lemma_kind_names_add(ts: Seq<Seq<TagView>>, t: TagView, kind: Kind)
    requires
        ts.len() > 0,
    ensures
        kind_names(add_tag(ts, t), kind) == if t.kind == kind { kind_names(ts, kind).push(t.name) } else {
            kind_names(ts, kind)
        },
{
    lemma_add_tag_shape(ts, t);
    lemma_tag_names_push(ts.last(), t, kind);
    let a = kind_names(ts.drop_last(), kind);
    let b = tag_names(ts.last(), kind);
    if t.kind == kind {
        assert(a + b.push(t.name) =~= (a + b).push(t.name));
    }
}

proof fn lemma_first_occurrences_contents(s: Seq<Seq<char>>)
    ensures
        forall|n: Seq<char>| #[trigger] first_occurrences(s).contains(n) <==> s.contains(n),
        forall|i: int, j: int|
            0 <= i < j < first_occurrences(s).len() ==> first_occurrences(s)[i] != first_occurrences(s)[j],
    decreases s.len(),
{
    if s.len() > 0 {
        let t = s.drop_last();
        lemma_first_occurrences_contents(t);
        let r = first_occurrences(t);
        assert forall|n: Seq<char>| #[trigger] first_occurrences(s).contains(n) <==> s.contains(n) by {
            if s.contains(n) {
                let k = choose|k: int| 0 <= k < s.len() && s[k] == n;
                if k < s.len() - 1 {
                    assert(t[k] == n);
                    assert(t.contains(n));
                    assert(r.contains(n));
                    let q = choose|q: int| 0 <= q < r.len() && r[q] == n;
                    if !r.contains(s.last()) {
                        assert(r.push(s.last())[q] == n);
                    }
                } else if !r.contains(s.last()) {
                    assert(r.push(s.last())[r.len() as int] == n);
                }
            }
            if first_occurrences(s).contains(n) {
                let k = choose|k: int| 0 <= k < first_occurrences(s).len() && first_occurrences(s)[k] == n;
                if k < r.len() {
                    assert(r[k] == n);
                    assert(r.contains(n));
                    assert(t.contains(n));
                    let q = choose|q: int| 0 <= q < t.len() && t[q] == n;
                    assert(s[q] == n);
                } else {
                    assert(s[s.len() - 1] == n);
                }
            }
        }
    }
}

proof fn lemma_first_occurrences_push(s: Seq<Seq<char>>, n: Seq<char>)
    ensures
        first_occurrences(s.push(n)) == if s.contains(n) { first_occurrences(s) } else {
            first_occurrences(s).push(n)
        },
{
    assert(s.push(n).drop_last() == s);
    lemma_first_occurrences_contents(s);
}

proof fn lemma_def_files_bound(ts: Seq<Seq<TagView>>, name: Seq<char>)
    requires
        ts.len() <= usize::MAX,
    ensures
        forall|k: int| 0 <= k < def_files(ts, name).len() ==> (#[trigger] def_files(ts, name)[k]) < ts.len(),
        def_files(ts, name).len() > 0 ==> kind_names(ts, Kind::Def).contains(name),
    decreases ts.len(),
{
    if ts.len() > 0 {
        let u = ts.drop_last();
        lemma_def_files_bound(u, name);
        assert forall|k: int| 0 <= k < def_files(ts, name).len() implies (#[trigger] def_files(ts, name)[k]) < ts.len() by {
            if k < def_files(u, name).len() {
                assert(def_files(ts, name)[k] == def_files(u, name)[k]);
            }
        }
        if def_files(ts, name).len() > 0 {
            if has_tag(ts.last(), Kind::Def, name) {
                let j = choose|j: int| 0 <= j < ts.last().len() && (#[trigger] ts.last()[j]).kind == Kind::Def && ts.last()[j].name == name;
                lemma_tag_names_contains(ts.last(), Kind::Def, j);
                let a = kind_names(u, Kind::Def);
                let b = tag_names(ts.last(), Kind::Def);
                let q = choose|q: int| 0 <= q < b.len() && b[q] == name;
                assert((a + b)[a.len() + q] == name);
            } else {
                let a = kind_names(u, Kind::Def);
                let b = tag_names(ts.last(), Kind::Def);
                let q = choose|q: int| 0 <= q < a.len() && a[q] == name;
                assert((a + b)[q] == name);
            }
        }
    }
}

proof fn lemma_tag_names_contains(tags: Seq<TagView>, kind: Kind, j: int)
    requires
        0 <= j < tags.len(),
        tags[j].kind == kind,
    ensures
        tag_names(tags, kind).contains(tags[j].name),
    decreases tags.len(),
{
    if j < tags.len() - 1 {
        lemma_tag_names_contains(tags.drop_last(), kind, j);
        let r = tag_names(tags.drop_last(), kind);
        let q = choose|q: int| 0 <= q < r.len() && r[q] == tags[j].name;
        if tags.last().kind == kind {
            assert(r.push(tags.last().name)[q] == tags[j].name);
        }
    } else {
        let r = tag_names(tags.drop_last(), kind);
        assert(r.push(tags.last().name)[r.len() as int] == tags[j].name);
    }
}

proof fn lemma_count_refs_names(tags: Seq<TagView>, name: Seq<char>)
    ensures
        count_refs(tags, name) <= tags.len(),
        count_refs(tags, name) > 0 ==> tag_names(tags, Kind::Ref).contains(name),
    decreases tags.len(),
{
    if tags.len() > 0 {
        lemma_count_refs_names(tags.drop_last(), name);
        if tags.last().kind == Kind::Ref && tags.last().name == name {
            lemma_tag_names_contains(tags, Kind::Ref, tags.len() - 1);
        } else if count_refs(tags, name) > 0 {
            let r = tag_names(tags.drop_last(), Kind::Ref);
            let q = choose|q: int| 0 <= q < r.len() && r[q] == name;
            if tags.last().kind == Kind::Ref {
                assert(r.push(tags.last().name)[q] == name);
            }
        }
    }
}

proof fn lemma_ref_files_bound(ts: Seq<Seq<TagView>>, name: Seq<char>)
    requires
        ts.len() <= usize::MAX,
    ensures
        forall|k: int| 0 <= k < ref_files(ts, name).len() ==> (#[trigger] ref_files(ts, name)[k]).0 < ts.len(),
        ref_files(ts, name).len() > 0 ==> kind_names(ts, Kind::Ref).contains(name),
    decreases ts.len(),
{
    if ts.len() > 0 {
        let u = ts.drop_last();
        lemma_ref_files_bound(u, name);
        lemma_count_refs_names(ts.last(), name);
        assert forall|k: int| 0 <= k < ref_files(ts, name).len() implies (#[trigger] ref_files(ts, name)[k]).0 < ts.len() by {
            if k < ref_files(u, name).len() {
                assert(ref_files(ts, name)[k] == ref_files(u, name)[k]);
            }
        }
        if ref_files(ts, name).len() > 0 {
            let a = kind_names(u, Kind::Ref);
            let b = tag_names(ts.last(), Kind::Ref);
            if count_refs(ts.last(), name) > 0 {
                let q = choose|q: int| 0 <= q < b.len() && b[q] == name;
                assert((a + b)[a.len() + q] == name);
            } else {
                let q = choose|q: int| 0 <= q < a.len() && a[q] == name;
                assert((a + b)[q] == name);
            }
        }
    }
}

proof fn lemma_has_tag_push(tags: Seq<TagView>, t: TagView, kind: Kind, name: Seq<char>)
    ensures
        has_tag(tags.push(t), kind, name) == (has_tag(tags, kind, name) || (t.kind == kind && t.name == name)),
{
    if has_tag(tags.push(t), kind, name) {
        let j = choose|j: int| 0 <= j < tags.push(t).len() && (#[trigger] tags.push(t)[j]).kind == kind && tags.push(t)[j].name == name;
        if j < tags.len() {
            assert(tags[j] == tags.push(t)[j]);
        }
    }
    if has_tag(tags, kind, name) {
        let j = choose|j: int| 0 <= j < tags.len() && (#[trigger] tags[j]).kind == kind && tags[j].name == name;
        assert(tags.push(t)[j] == tags[j]);
    }
    if t.kind == kind && t.name == name {
        assert(tags.push(t)[tags.len() as int] == t);
    }
}

proof fn lemma_def_files_add(ts: Seq<Seq<TagView>>, t: TagView, name: Seq<char>)
    requires
        0 < ts.len() <= usize::MAX,
    ensures
        def_files(add_tag(ts, t), name) == if t.kind == Kind::Def && t.name == name && !has_tag(ts.last(), Kind::Def, name) {
            def_files(ts, name).push((ts.len() - 1) as usize)
        } else {
            def_files(ts, name)
        },
        has_tag(ts.last(), Kind::Def, name) <==> (def_files(ts, name).len() > 0 && def_files(ts, name).last() == ts.len() - 1),
{
    lemma_add_tag_shape(ts, t);
    lemma_has_tag_push(ts.last(), t, Kind::Def, name);
    lemma_def_files_bound(ts.drop_last(), name);
    let r = def_files(ts.drop_last(), name);
    if !has_tag(ts.last(), Kind::Def, name) && r.len() > 0 {
        assert(r[r.len() - 1] < ts.len() - 1);
    }
}

proof fn lemma_ref_files_add(ts: Seq<Seq<TagView>>, t: TagView, name: Seq<char>)
    requires
        0 < ts.len() <= usize::MAX,
        ts.last().len() < usize::MAX,
    ensures
        ({
            let c = count_refs(ts.last(), name);
            let r = ref_files(ts, name);
            let l = (ts.len() - 1) as usize;
            &&& (c > 0 <==> (r.len() > 0 && r.last().0 == l))
            &&& (c > 0 ==> r.last().1 == c)
            &&& ref_files(add_tag(ts, t), name) == if t.kind == Kind::Ref && t.name == name {
                if c > 0 {
                    r.update(r.len() - 1, (l, (c + 1) as usize))
                } else {
                    r.push((l, 1usize))
                }
            } else {
                r
            }
        }),
{
    lemma_add_tag_shape(ts, t);
    assert(ts.last().push(t).drop_last() == ts.last());
    lemma_ref_files_bound(ts.drop_last(), name);
    lemma_count_refs_names(ts.last(), name);
    let r0 = ref_files(ts.drop_last(), name);
    let c = count_refs(ts.last(), name);
    if c == 0 && r0.len() > 0 {
        assert(r0[r0.len() - 1].0 < ts.len() - 1);
    }
    if c > 0 && t.kind == Kind::Ref && t.name == name {
        let l = (ts.len() - 1) as usize;
        assert(r0.push((l, c as usize)).update(r0.len() as int, (l, (c + 1) as usize)) =~= r0.push((l, (c + 1) as usize)));
    }
}

proof fn lemma_empty_file(ts: Seq<Seq<TagView>>, name: Seq<char>, kind: Kind)
    ensures
        kind_names(ts.push(seq![]), kind) == kind_names(ts, kind),
        def_files(ts.push(seq![]), name) == def_files(ts, name),
        ref_files(ts.push(seq![]), name) == ref_files(ts, name),
{
    assert(ts.push(seq![]).drop_last() == ts);
    assert(kind_names(ts, kind) + Seq::<Seq<char>>::empty() =~= kind_names(ts, kind));
    assert(!has_tag(seq![], Kind::Def, name));
}


// ---------------------------------------------------------------------------
// Building the index
// ---------------------------------------------------------------------------

fn find_key(keys: &Vec<Vec<char>>, name: &Vec<char>) -> (r: Option<usize>)
    ensures
        match r {
            Some(p) => p < keys@.len() && keys@[p as int]@ == name@,
            None => !seqs_of(keys@).contains(name@),
        },
{
    let mut i: usize = 0;
    while i < keys.len()
        invariant
            i <= keys@.len(),
            forall|j: int| 0 <= j < i ==> keys@[j]@ != name@,
        decreases keys@.len() - i,
    {
        if chars_eq(&keys[i], name) {
            return Some(i);
        }
        i = i + 1;
    }
    assert forall|j: int| 0 <= j < seqs_of(keys@).len() implies seqs_of(keys@)[j] != name@ by {
        assert(seqs_of(keys@)[j] == keys@[j]@);
    }
    None
}

/// `ts` cut after tag `ti` of file `fi`.
pub open spec fn tag_prefix(ts: Seq<Seq<TagView>>, fi: int, ti: int) -> Seq<Seq<TagView>> {
    ts.take(fi).push(ts[fi].take(ti))
}

proof fn lemma_prefix_step(ts: Seq<Seq<TagView>>, fi: int, ti: int)
    requires
        0 <= fi < ts.len(),
        0 <= ti < ts[fi].len(),
    ensures
        tag_prefix(ts, fi, ti + 1) == add_tag(tag_prefix(ts, fi, ti), ts[fi][ti]),
{
    assert(ts[fi].take(ti + 1) =~= ts[fi].take(ti).push(ts[fi][ti]));
    assert(tag_prefix(ts, fi, ti).drop_last() =~= ts.take(fi));
}

proof fn lemma_ref_names_unchanged(p0: Seq<Seq<TagView>>, tv: TagView, refs: Seq<(String, Vec<(usize, usize)>)>)
    requires
        0 < p0.len() <= usize::MAX,
        p0.last().len() < usize::MAX,
        tv.kind == Kind::Def,
        references_of(p0, refs),
    ensures
        references_of(add_tag(p0, tv), refs),
{
    lemma_kind_names_add(p0, tv, Kind::Ref);
    assert forall|p: int| 0 <= p < refs.len() implies (#[trigger] refs[p]).1@ == ref_files(add_tag(p0, tv), refs[p].0@) by {
        lemma_ref_files_add(p0, tv, refs[p].0@);
    }
}

proof fn lemma_def_names_unchanged(p0: Seq<Seq<TagView>>, tv: TagView, defs: Seq<(String, Vec<usize>)>)
    requires
        0 < p0.len() <= usize::MAX,
        tv.kind == Kind::Ref,
        defines_of(p0, defs),
    ensures
        defines_of(add_tag(p0, tv), defs),
{
    lemma_kind_names_add(p0, tv, Kind::Def);
    assert forall|p: int| 0 <= p < defs.len() implies (#[trigger] defs[p]).1@ == def_files(add_tag(p0, tv), defs[p].0@) by {
        lemma_def_files_add(p0, tv, defs[p].0@);
    }
}

proof fn lemma_keys_distinct(keys: Seq<Seq<char>>, s: Seq<Seq<char>>, p: int, q: int)
    requires
        keys == first_occurrences(s),
        0 <= p < keys.len(),
        0 <= q < keys.len(),
        p != q,
    ensures
        keys[p] != keys[q],
{
    lemma_first_occurrences_contents(s);
    if p < q {
    } else {
    }
}

fn add_definition(
    defines: &mut Vec<(String, Vec<usize>)>,
    dkeys: &mut Vec<Vec<char>>,
    name: &String,
    nc: Vec<char>,
    fi: usize,
    Ghost(p0): Ghost<Seq<Seq<TagView>>>,
    Ghost(tv): Ghost<TagView>,
)
    requires
        seqs_of(old(dkeys)@) == def_keys(old(defines)@),
        defines_of(p0, old(defines)@),
        p0.len() == fi + 1,
        fi < usize::MAX,
        tv.kind == Kind::Def,
        tv.name == name@,
        nc@ == name@,
    ensures
        seqs_of(final(dkeys)@) == def_keys(final(defines)@),
        defines_of(add_tag(p0, tv), final(defines)@),
{
    let ghost kn = kind_names(p0, Kind::Def);
    let ghost before = defines@;
    proof {
        lemma_kind_names_add(p0, tv, Kind::Def);
        lemma_first_occurrences_push(kn, name@);
        lemma_first_occurrences_contents(kn);
        lemma_def_files_add(p0, tv, name@);
        lemma_def_files_bound(p0, name@);
    }
    match find_key(dkeys, &nc) {
        None => {
            proof {
                assert(!kn.contains(name@));
                assert(def_files(p0, name@).len() == 0);
            }
            let mut v: Vec<usize> = Vec::new();
            v.push(fi);
            let ghost dk = dkeys@;
            defines.push((name.clone(), v));
            dkeys.push(nc);
            proof {
                assert(seqs_of(dkeys@) =~= seqs_of(dk).push(name@));
                assert(def_keys(defines@) =~= def_keys(before).push(name@));
                assert forall|q: int| 0 <= q < defines@.len() implies (#[trigger] defines@[q]).1@ == def_files(add_tag(p0, tv), defines@[q].0@) by {
                    if q < before.len() {
                        assert(defines@[q] == before[q]);
                        lemma_def_files_add(p0, tv, before[q].0@);
                        assert(def_keys(before)[q] == before[q].0@);
                        assert(seqs_of(dk)[q] == before[q].0@);
                        assert(before[q].0@ != name@);
                    } else {
                        assert(defines@[q].1@ =~= seq![fi]);
                        assert(def_files(p0, name@) =~= Seq::<usize>::empty());
                    }
                }
            }
        },
        Some(p) => {
            proof {
                assert(def_keys(before)[p as int] == before[p as int].0@);
                assert(seqs_of(dkeys@)[p as int] == dkeys@[p as int]@);
                assert(before[p as int].0@ == name@);
                assert(kn.contains(name@)) by {
                    assert(first_occurrences(kn).contains(name@)) by {
                        assert(first_occurrences(kn)[p as int] == name@);
                    }
                }
            }
            let n = defines[p].1.len();
            if n == 0 || defines[p].1[n - 1] != fi {
                defines[p].1.push(fi);
            }
            proof {
                assert(def_keys(defines@) =~= def_keys(before));
                assert forall|q: int| 0 <= q < defines@.len() implies (#[trigger] defines@[q]).1@ == def_files(add_tag(p0, tv), defines@[q].0@) by {
                    if q != p {
                        assert(defines@[q] == before[q]);
                        lemma_def_files_add(p0, tv, before[q].0@);
                        lemma_keys_distinct(def_keys(before), kn, p as int, q);
                        assert(def_keys(before)[q] == before[q].0@);
                    }
                }
            }
        },
    }
}

fn add_reference(
    references: &mut Vec<(String, Vec<(usize, usize)>)>,
    rkeys: &mut Vec<Vec<char>>,
    name: &String,
    nc: Vec<char>,
    fi: usize,
    Ghost(p0): Ghost<Seq<Seq<TagView>>>,
    Ghost(tv): Ghost<TagView>,
)
    requires
        seqs_of(old(rkeys)@) == ref_keys(old(references)@),
        references_of(p0, old(references)@),
        p0.len() == fi + 1,
        fi < usize::MAX,
        p0.last().len() < usize::MAX,
        tv.kind == Kind::Ref,
        tv.name == name@,
        nc@ == name@,
    ensures
        seqs_of(final(rkeys)@) == ref_keys(final(references)@),
        references_of(add_tag(p0, tv), final(references)@),
{
    let ghost kn = kind_names(p0, Kind::Ref);
    let ghost before = references@;
    proof {
        lemma_kind_names_add(p0, tv, Kind::Ref);
        lemma_first_occurrences_push(kn, name@);
        lemma_first_occurrences_contents(kn);
        lemma_ref_files_add(p0, tv, name@);
        lemma_ref_files_bound(p0, name@);
    }
    match find_key(rkeys, &nc) {
        None => {
            proof {
                assert(!kn.contains(name@));
                assert(ref_files(p0, name@).len() == 0);
                lemma_count_refs_names(p0.last(), name@);
                if count_refs(p0.last(), name@) > 0 {
                    assert(ref_files(p0, name@).len() > 0);
                }
            }
            let mut v: Vec<(usize, usize)> = Vec::new();
            v.push((fi, 1));
            let ghost rk = rkeys@;
            references.push((name.clone(), v));
            rkeys.push(nc);
            proof {
                assert(seqs_of(rkeys@) =~= seqs_of(rk).push(name@));
                assert(ref_keys(references@) =~= ref_keys(before).push(name@));
                assert forall|q: int| 0 <= q < references@.len() implies (#[trigger] references@[q]).1@ == ref_files(add_tag(p0, tv), references@[q].0@) by {
                    if q < before.len() {
                        assert(references@[q] == before[q]);
                        lemma_ref_files_add(p0, tv, before[q].0@);
                        assert(ref_keys(before)[q] == before[q].0@);
                        assert(seqs_of(rk)[q] == before[q].0@);
                        assert(before[q].0@ != name@);
                    } else {
                        assert(references@[q].1@ =~= seq![(fi, 1usize)]);
                        assert(ref_files(p0, name@) =~= Seq::<(usize, usize)>::empty());
                    }
                }
            }
        },
        Some(p) => {
            proof {
                assert(ref_keys(before)[p as int] == before[p as int].0@);
                assert(seqs_of(rkeys@)[p as int] == rkeys@[p as int]@);
                assert(before[p as int].0@ == name@);
                lemma_count_refs_names(p0.last(), name@);
                assert(kn.contains(name@)) by {
                    assert(first_occurrences(kn).contains(name@)) by {
                        assert(first_occurrences(kn)[p as int] == name@);
                    }
                }
            }
            let n = references[p].1.len();
            if n > 0 && references[p].1[n - 1].0 == fi {
                let c = references[p].1[n - 1].1;
                references[p].1.set(n - 1, (fi, c + 1));
            } else {
                references[p].1.push((fi, 1));
            }
            proof {
                assert(ref_keys(references@) =~= ref_keys(before));
                assert forall|q: int| 0 <= q < references@.len() implies (#[trigger] references@[q]).1@ == ref_files(add_tag(p0, tv), references@[q].0@) by {
                    if q != p {
                        assert(references@[q] == before[q]);
                        lemma_ref_files_add(p0, tv, before[q].0@);
                        lemma_keys_distinct(ref_keys(before), kn, p as int, q);
                        assert(ref_keys(before)[q] == before[q].0@);
                    } else {
                        assert(references@[q].1@ =~= ref_files(add_tag(p0, tv), name@));
                    }
                }
            }
        },
    }
}

/// The (path, text) pairs of `sources`.
pub open spec fn sources_view(sources: Seq<(String, String)>) -> Seq<(Seq<char>, Seq<char>)> {
    sources.map_values(|e: (String, String)| (e.0@, e.1@))
}

/// The sources that have at least one tag, in order.
pub open spec fn tagged_sources(sources: Seq<(Seq<char>, Seq<char>)>, queries: Seq<(String, String)>) -> Seq<(Seq<char>, Seq<char>)>
    decreases sources.len(),
{
    if sources.len() == 0 {
        seq![]
    } else {
        let r = tagged_sources(sources.drop_last(), queries);
        let e = sources.last();
        if tags_of_file(e.0, e.1, queries).len() > 0 {
            r.push(e)
        } else {
            r
        }
    }
}

/// Exactly the sources with at least one tag, definition or reference, are
/// kept.
pub proof fn tagged_sources_keep_tagged(sources: Seq<(Seq<char>, Seq<char>)>, queries: Seq<(String, String)>)
    ensures
        forall|i: int|
            0 <= i < sources.len() && tags_of_file(sources[i].0, sources[i].1, queries).len() > 0
                ==> tagged_sources(sources, queries).contains(#[trigger] sources[i]),
        forall|k: int|
            0 <= k < tagged_sources(sources, queries).len() ==> {
                let e = #[trigger] tagged_sources(sources, queries)[k];
                &&& sources.contains(e)
                &&& tags_of_file(e.0, e.1, queries).len() > 0
            },
    decreases sources.len(),
{
    if sources.len() > 0 {
        let init = sources.drop_last();
        tagged_sources_keep_tagged(init, queries);
        let r = tagged_sources(init, queries);
        let e = sources.last();
        let t = tagged_sources(sources, queries);
        assert forall|i: int|
            0 <= i < sources.len() && tags_of_file(sources[i].0, sources[i].1, queries).len() > 0 implies t.contains(
            #[trigger] sources[i],
        ) by {
            if i < sources.len() - 1 {
                assert(init[i] == sources[i]);
                let j = choose|j: int| 0 <= j < r.len() && r[j] == init[i];
                assert(t[j] == r[j]);
            } else {
                assert(t[t.len() - 1] == e);
            }
        }
        assert forall|k: int| 0 <= k < t.len() implies {
            let x = #[trigger] t[k];
            &&& sources.contains(x)
            &&& tags_of_file(x.0, x.1, queries).len() > 0
        } by {
            if k < r.len() {
                assert(t[k] == r[k]);
                let j = choose|j: int| 0 <= j < init.len() && init[j] == r[k];
                assert(sources[j] == init[j]);
            } else {
                assert(t[k] == e);
                assert(sources[sources.len() - 1] == e);
            }
        }
    }
}

impl Index {
    /// Builds the define and reference tables for `files`.
    pub fn from_files(files: Vec<FileData>) -> (idx: Index)
        ensures
            idx.files@ == files@,
            defines_of(file_tags(files@), idx.defines@),
            references_of(file_tags(files@), idx.references@),
    {
        let ghost ts = file_tags(files@);
        assert(files.len() == files@.len());
        let mut defines: Vec<(String, Vec<usize>)> = Vec::new();
        let mut references: Vec<(String, Vec<(usize, usize)>)> = Vec::new();
        let mut dkeys: Vec<Vec<char>> = Vec::new();
        let mut rkeys: Vec<Vec<char>> = Vec::new();
        let mut fi: usize = 0;
        proof {
            assert(ts.take(0).push(seq![]) =~= seq![seq![]]);
            let e: Seq<Seq<TagView>> = seq![seq![]];
            assert(e.drop_last() =~= Seq::<Seq<TagView>>::empty());
            assert(e.last() =~= Seq::<TagView>::empty());
            assert(tag_names(Seq::<TagView>::empty(), Kind::Ref) =~= Seq::<Seq<char>>::empty());
            assert(kind_names(Seq::<Seq<TagView>>::empty(), Kind::Def) =~= Seq::<Seq<char>>::empty());
            assert(kind_names(Seq::<Seq<TagView>>::empty(), Kind::Ref) =~= Seq::<Seq<char>>::empty());
            assert(tag_names(Seq::<TagView>::empty(), Kind::Def) =~= Seq::<Seq<char>>::empty());
            assert(kind_names(e, Kind::Def) =~= Seq::<Seq<char>>::empty());
            assert(kind_names(e, Kind::Ref) =~= Seq::<Seq<char>>::empty());
            assert(def_keys(defines@) =~= Seq::<Seq<char>>::empty());
            assert(ref_keys(references@) =~= Seq::<Seq<char>>::empty());
            assert(seqs_of(dkeys@) =~= Seq::<Seq<char>>::empty());
            assert(seqs_of(rkeys@) =~= Seq::<Seq<char>>::empty());
        }
        while fi < files.len()
            invariant
                fi <= files@.len(),
                files@.len() <= usize::MAX,
                ts == file_tags(files@),
                seqs_of(dkeys@) == def_keys(defines@),
                seqs_of(rkeys@) == ref_keys(references@),
                defines_of(ts.take(fi as int).push(seq![]), defines@),
                references_of(ts.take(fi as int).push(seq![]), references@),
            decreases files@.len() - fi,
        {
            let tags = &files[fi].tags;
            assert(ts[fi as int] == tags_view(tags@));
            assert(tags.len() == tags@.len());
            let mut ti: usize = 0;
            assert(ts[fi as int].take(0) =~= Seq::<TagView>::empty());
            assert(tag_prefix(ts, fi as int, 0) == ts.take(fi as int).push(seq![]));
            while ti < tags.len()
                invariant
                    fi < files@.len(),
                    files@.len() <= usize::MAX,
                    ti <= tags@.len(),
                    tags == &files@[fi as int].tags,
                    ts == file_tags(files@),
                    ts[fi as int] == tags_view(tags@),
                    tags@.len() <= usize::MAX,
                    seqs_of(dkeys@) == def_keys(defines@),
                    seqs_of(rkeys@) == ref_keys(references@),
                    defines_of(tag_prefix(ts, fi as int, ti as int), defines@),
                    references_of(tag_prefix(ts, fi as int, ti as int), references@),
                decreases tags@.len() - ti,
            {
                let t = &tags[ti];
                let ghost p0 = tag_prefix(ts, fi as int, ti as int);
                let ghost tv = t@;
                proof {
                    assert(ts[fi as int][ti as int] == tv);
                    lemma_prefix_step(ts, fi as int, ti as int);
                    assert(p0.len() == fi + 1);
                    assert(p0.last() == ts[fi as int].take(ti as int));
                }
                let ghost p1 = tag_prefix(ts, fi as int, ti + 1);
                let nc = chars_of(t.name.as_str());
                match t.kind {
                    Kind::Def => {
                        add_definition(&mut defines, &mut dkeys, &t.name, nc, fi, Ghost(p0), Ghost(tv));
                        proof {
                            lemma_ref_names_unchanged(p0, tv, references@);
                        }
                    },
                    Kind::Ref => {
                        add_reference(&mut references, &mut rkeys, &t.name, nc, fi, Ghost(p0), Ghost(tv));
                        proof {
                            lemma_def_names_unchanged(p0, tv, defines@);
                        }
                    },
                }
                ti = ti + 1;
            }
            proof {
                assert(ts[fi as int].take(tags@.len() as int) =~= ts[fi as int]);
                assert(tag_prefix(ts, fi as int, tags@.len() as int) =~= ts.take(fi + 1));
                let q = ts.take(fi + 1);
                assert forall|p: int| 0 <= p < defines@.len() implies (#[trigger] defines@[p]).1@ == def_files(q.push(seq![]), defines@[p].0@) by {
                    lemma_empty_file(q, defines@[p].0@, Kind::Def);
                }
                assert forall|p: int| 0 <= p < references@.len() implies (#[trigger] references@[p]).1@ == ref_files(q.push(seq![]), references@[p].0@) by {
                    lemma_empty_file(q, references@[p].0@, Kind::Ref);
                }
                lemma_empty_file(q, seq![], Kind::Def);
                lemma_empty_file(q, seq![], Kind::Ref);
            }
            fi = fi + 1;
        }
        proof {
            assert(ts.take(files@.len() as int) =~= ts);
            assert forall|p: int| 0 <= p < defines@.len() implies (#[trigger] defines@[p]).1@ == def_files(ts, defines@[p].0@) by {
                lemma_empty_file(ts, defines@[p].0@, Kind::Def);
            }
            assert forall|p: int| 0 <= p < references@.len() implies (#[trigger] references@[p]).1@ == ref_files(ts, references@[p].0@) by {
                lemma_empty_file(ts, references@[p].0@, Kind::Ref);
            }
            lemma_empty_file(ts, seq![], Kind::Def);
            lemma_empty_file(ts, seq![], Kind::Ref);
        }
        Index { files, defines, references }
    }

    /// The index of the files `sources` (path and text, in order) under
    /// `root`: every file that has at least one tag, with its display path.
    pub fn from_sources(root: &str, sources: Vec<(String, String)>, queries: &TagQueries) -> (idx: Index)
        requires
            has_all_queries(queries.files@),
        ensures
            ({
                let kept = tagged_sources(sources_view(sources@), queries.files@);
                &&& idx.files@.len() == kept.len()
                &&& forall|k: int|
                    0 <= k < kept.len() ==> {
                        let f = #[trigger] idx.files@[k];
                        &&& f.path@ == kept[k].0
                        &&& f.rel@ == rel_of(kept[k].0, root@)
                        &&& f.source@ == kept[k].1
                        &&& tags_view(f.tags@) == tags_of_file(kept[k].0, kept[k].1, queries.files@)
                    }
            }),
            forall|i: int|
                0 <= i < sources@.len() && tags_of_file(sources@[i].0@, sources@[i].1@, queries.files@).len() > 0
                    ==> exists|k: int|
                    0 <= k < idx.files@.len() && (#[trigger] idx.files@[k]).path@ == (#[trigger] sources@[i]).0@
                        && idx.files@[k].source@ == sources@[i].1@,
            forall|k: int| 0 <= k < idx.files@.len() ==> tags_view((#[trigger] idx.files@[k]).tags@).len() > 0,
            defines_of(file_tags(idx.files@), idx.defines@),
            references_of(file_tags(idx.files@), idx.references@),
    {
        let ghost sv = sources_view(sources@);
        let ghost src = sources@;
        let mut files: Vec<FileData> = Vec::new();
        let mut sources = sources;
        let ghost s0 = sources@;
        let mut k: usize = 0;
        assert(sources.len() == s0.len());
        while sources.len() > 0
            invariant
                k <= s0.len() <= usize::MAX,
                sv == sources_view(s0),
                sources@ == s0.skip(k as int),
                has_all_queries(queries.files@),
                ({
                    let kept = tagged_sources(sv.take(k as int), queries.files@);
                    &&& files@.len() == kept.len()
                    &&& forall|q: int|
                        0 <= q < kept.len() ==> {
                            let f = #[trigger] files@[q];
                            &&& f.path@ == kept[q].0
                            &&& f.rel@ == rel_of(kept[q].0, root@)
                            &&& f.source@ == kept[q].1
                            &&& tags_view(f.tags@) == tags_of_file(kept[q].0, kept[q].1, queries.files@)
                        }
                }),
            decreases sources@.len(),
        {
            let (path, source) = sources.remove(0);
            proof {
                assert(sv[k as int] == (path@, source@));
                assert(sv.take(k + 1).drop_last() =~= sv.take(k as int));
                assert(sv.take(k + 1).last() == sv[k as int]);
                assert(sources@ =~= s0.skip(k + 1));
            }
            let tags = extract(path.as_str(), source.as_str(), queries);
            let ghost before = files@;
            if tags.len() > 0 {
                let r = rel(path.as_str(), root);
                files.push(FileData { path, rel: r, source, tags });
                proof {
                    let kept = tagged_sources(sv.take(k + 1), queries.files@);
                    assert forall|q: int| 0 <= q < kept.len() implies {
                        let f = #[trigger] files@[q];
                        &&& f.path@ == kept[q].0
                        &&& f.rel@ == rel_of(kept[q].0, root@)
                        &&& f.source@ == kept[q].1
                        &&& tags_view(f.tags@) == tags_of_file(kept[q].0, kept[q].1, queries.files@)
                    } by {
                        if q < before.len() {
                            assert(files@[q] == before[q]);
                        }
                    }
                }
            } else {
                assert(tags_of_file(path@, source@, queries.files@).len() == 0);
            }
            k = k + 1;
        }
        assert(sv.take(s0.len() as int) =~= sv);
        proof {
            let kept = tagged_sources(sv, queries.files@);
            tagged_sources_keep_tagged(sv, queries.files@);
            assert forall|i: int|
                0 <= i < src.len() && tags_of_file(src[i].0@, src[i].1@, queries.files@).len() > 0 implies exists|k: int|
                0 <= k < files@.len() && (#[trigger] files@[k]).path@ == (#[trigger] src[i]).0@ && files@[k].source@
                    == src[i].1@ by {
                assert(sv[i] == (src[i].0@, src[i].1@));
                let k = choose|k: int| 0 <= k < kept.len() && kept[k] == sv[i];
                assert(files@[k].path@ == kept[k].0);
            }
        }
        Index::from_files(files)
    }

    /// Definition tags of a file, paired with the index into `file.tags`.
    pub fn defs(&self, fi: usize) -> (r: Vec<(usize, &Tag)>)
        requires
            fi < self.files@.len(),
        ensures
            r@.map_values(|d: (usize, &Tag)| d.0) == def_positions(tags_view(self.files@[fi as int].tags@)),
            forall|k: int| 0 <= k < r@.len() ==> *(#[trigger] r@[k]).1 == self.files@[fi as int].tags@[r@[k].0 as int],
    {
        let tags = &self.files[fi].tags;
        let ghost tv = tags_view(tags@);
        let mut r: Vec<(usize, &Tag)> = Vec::new();
        let mut i: usize = 0;
        while i < tags.len()
            invariant
                i <= tags@.len(),
                tags == &self.files@[fi as int].tags,
                tv == tags_view(tags@),
                r@.map_values(|d: (usize, &Tag)| d.0) == def_positions(tv.take(i as int)),
                forall|k: int| 0 <= k < r@.len() ==> *(#[trigger] r@[k]).1 == tags@[r@[k].0 as int],
            decreases tags@.len() - i,
        {
            let ghost before = r@;
            assert(tv.take(i + 1).drop_last() =~= tv.take(i as int));
            assert(tv.take(i + 1).last() == tags@[i as int]@);
            if tags[i].kind == Kind::Def {
                r.push((i, &tags[i]));
                assert(r@.map_values(|d: (usize, &Tag)| d.0) =~= before.map_values(|d: (usize, &Tag)| d.0).push(i));
            }
            i = i + 1;
        }
        assert(tv.take(tags@.len() as int) =~= tv);
        r
    }
}

/// The files listed for a name in the define table are exactly the files
/// that define it, each once, in increasing order.
pub proof fn def_files_exact(ts: Seq<Seq<TagView>>, name: Seq<char>)
    requires
        ts.len() <= usize::MAX,
    ensures
        ({
            let d = def_files(ts, name);
            &&& forall|a: int, b: int| 0 <= a < b < d.len() ==> d[a] < d[b]
            &&& forall|k: int| 0 <= k < d.len() ==> d[k] < ts.len() && has_tag(ts[d[k] as int], Kind::Def, name)
            &&& forall|f: int| 0 <= f < ts.len() && has_tag(#[trigger] ts[f], Kind::Def, name) ==> d.contains(f as usize)
        }),
    decreases ts.len(),
{
    if ts.len() > 0 {
        let u = ts.drop_last();
        def_files_exact(u, name);
        let r = def_files(u, name);
        let d = def_files(ts, name);
        assert forall|k: int| 0 <= k < r.len() implies r[k] < u.len() && has_tag(ts[r[k] as int], Kind::Def, name) by {
            assert(ts[r[k] as int] == u[r[k] as int]);
        }
        assert forall|f: int| 0 <= f < ts.len() && has_tag(#[trigger] ts[f], Kind::Def, name) implies d.contains(f as usize) by {
            if f < u.len() {
                assert(u[f] == ts[f]);
                let q = choose|q: int| 0 <= q < r.len() && r[q] == f as usize;
                if has_tag(ts.last(), Kind::Def, name) {
                    assert(r.push((ts.len() - 1) as usize)[q] == f as usize);
                }
            } else {
                assert(d[r.len() as int] == f as usize);
            }
        }
        if has_tag(ts.last(), Kind::Def, name) {
            assert forall|k: int| 0 <= k < d.len() implies d[k] < ts.len() && has_tag(ts[d[k] as int], Kind::Def, name) by {
                if k < r.len() {
                    assert(d[k] == r[k]);
                }
            }
        }
    }
}

/// The files listed for a name in the reference table are exactly the files
/// that refer to it, each once, in increasing order, each with its number of
/// references to the name (at least one).
pub proof fn ref_files_exact(ts: Seq<Seq<TagView>>, name: Seq<char>)
    requires
        ts.len() <= usize::MAX,
        forall|f: int| 0 <= f < ts.len() ==> (#[trigger] ts[f]).len() < usize::MAX,
    ensures
        ({
            let d = ref_files(ts, name);
            &&& forall|a: int, b: int| 0 <= a < b < d.len() ==> d[a].0 < d[b].0
            &&& forall|k: int| 0 <= k < d.len() ==> d[k].0 < ts.len() && d[k].1 > 0
                && d[k].1 == count_refs(ts[d[k].0 as int], name)
            &&& forall|f: int| 0 <= f < ts.len() && count_refs(#[trigger] ts[f], name) > 0 ==> exists|k: int|
                0 <= k < d.len() && d[k].0 == f
        }),
    decreases ts.len(),
{
    if ts.len() > 0 {
        let u = ts.drop_last();
        assert forall|f: int| 0 <= f < u.len() implies (#[trigger] u[f]).len() < usize::MAX by {
            assert(u[f] == ts[f]);
        }
        ref_files_exact(u, name);
        let r = ref_files(u, name);
        let d = ref_files(ts, name);
        let c = count_refs(ts.last(), name);
        lemma_count_refs_names(ts.last(), name);
        assert(ts.last().len() < usize::MAX);
        assert forall|k: int| 0 <= k < r.len() implies r[k].0 < u.len() && r[k].1 > 0
            && r[k].1 == count_refs(ts[r[k].0 as int], name) by {
            assert(ts[r[k].0 as int] == u[r[k].0 as int]);
        }
        assert forall|k: int| 0 <= k < d.len() implies d[k].0 < ts.len() && d[k].1 > 0
            && d[k].1 == count_refs(ts[d[k].0 as int], name) by {
            if k < r.len() {
                assert(d[k] == r[k]);
            }
        }
        assert forall|f: int| 0 <= f < ts.len() && count_refs(#[trigger] ts[f], name) > 0 implies exists|k: int|
            0 <= k < d.len() && d[k].0 == f by {
            if f < u.len() {
                assert(u[f] == ts[f]);
                let q = choose|q: int| 0 <= q < r.len() && r[q].0 == f;
                assert(d[q] == r[q]);
            } else {
                assert(d[r.len() as int].0 == f);
            }
        }
    }
}

/// Every name is a key of the define table once, and the keys are exactly the
/// names of the definitions.
pub proof fn define_keys_exact(ts: Seq<Seq<TagView>>, d: Seq<(String, Vec<usize>)>)
    requires
        defines_of(ts, d),
    ensures
        forall|a: int, b: int| 0 <= a < b < d.len() ==> d[a].0@ != d[b].0@,
        forall|n: Seq<char>| #[trigger] def_keys(d).contains(n) <==> kind_names(ts, Kind::Def).contains(n),
{
    lemma_first_occurrences_contents(kind_names(ts, Kind::Def));
    assert forall|a: int, b: int| 0 <= a < b < d.len() implies d[a].0@ != d[b].0@ by {
        assert(def_keys(d)[a] == d[a].0@);
        assert(def_keys(d)[b] == d[b].0@);
    }
}

/// Every name is a key of the reference table once, and the keys are exactly
/// the names of the references.
pub proof fn reference_keys_exact(ts: Seq<Seq<TagView>>, d: Seq<(String, Vec<(usize, usize)>)>)
    requires
        references_of(ts, d),
    ensures
        forall|a: int, b: int| 0 <= a < b < d.len() ==> d[a].0@ != d[b].0@,
        forall|n: Seq<char>| #[trigger] ref_keys(d).contains(n) <==> kind_names(ts, Kind::Ref).contains(n),
{
    lemma_first_occurrences_contents(kind_names(ts, Kind::Ref));
    assert forall|a: int, b: int| 0 <= a < b < d.len() implies d[a].0@ != d[b].0@ by {
        assert(ref_keys(d)[a] == d[a].0@);
        assert(ref_keys(d)[b] == d[b].0@);
    }
}

/// The definition positions of a file are increasing, each names a
/// definition, and every definition is listed.
pub proof fn def_positions_exact(tags: Seq<TagView>)
    requires
        tags.len() <= usize::MAX,
    ensures
        ({
            let p = def_positions(tags);
            &&& forall|a: int, b: int| 0 <= a < b < p.len() ==> p[a] < p[b]
            &&& forall|k: int| 0 <= k < p.len() ==> p[k] < tags.len() && tags[p[k] as int].kind == Kind::Def
            &&& forall|j: int| 0 <= j < tags.len() && (#[trigger] tags[j]).kind == Kind::Def ==> p.contains(j as usize)
        }),
    decreases tags.len(),
{
    if tags.len() > 0 {
        let u = tags.drop_last();
        def_positions_exact(u);
        let r = def_positions(u);
        let p = def_positions(tags);
        assert forall|k: int| 0 <= k < p.len() implies p[k] < tags.len() && tags[p[k] as int].kind == Kind::Def by {
            if k < r.len() {
                assert(p[k] == r[k]);
                assert(tags[r[k] as int] == u[r[k] as int]);
            }
        }
        assert forall|j: int| 0 <= j < tags.len() && (#[trigger] tags[j]).kind == Kind::Def implies p.contains(j as usize) by {
            if j < u.len() {
                assert(u[j] == tags[j]);
                let q = choose|q: int| 0 <= q < r.len() && r[q] == j as usize;
                assert(p[q] == j as usize);
            } else {
                assert(p[r.len() as int] == j as usize);
            }
        }
    }
}

/// Positions of the definition tags, increasing.
pub open spec fn def_positions(tags: Seq<TagView>) -> Seq<usize>
    decreases tags.len(),
{
    if tags.len() == 0 {
        seq![]
    } else {
        let r = def_positions(tags.drop_last());
        if tags.last().kind == Kind::Def {
            r.push((tags.len() - 1) as usize)
        } else {
            r
        }
    }
}

} // verus!
