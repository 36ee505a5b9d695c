//! Map assembly: group the selected definitions by file, order the files, fit
//! the outline to a token budget and render it.

use vstd::prelude::*;
use crate::index::{FileData, Index};
use crate::order::{insert_le, lemma_insert_le_at, lemma_sort_le_sorted, sort_le, total_preorder};
use crate::render::{rendered_file_grows_with_lines, token_estimate_monotone};
use crate::lang::{ancestor_chains, detect, has_all_queries, language_of_path, TagQueries};
use crate::render::{
    approx_tokens, def_bytes, insert_line, is_line_plan, plan_lines, render_file, rendered_file, strictly_increasing,
    token_estimate,
};
use crate::tags::Tag;
use crate::text::{chars_eq, chars_of, join, join_chars, lemma_text_le_total, lemma_text_le_trans, seqs_of, text_le, text_le_exec};
use crate::walk::forward_slashes;

verus! {

/// Options of one map request.
pub struct Options {
    pub query: Option<String>,
    pub tokens: usize,
    pub mentioned_idents: Vec<String>,
    pub mentioned_files: Vec<String>,
    pub model: Option<String>,
    pub no_cache: bool,
    pub verbose: bool,
}

/// A definition selected for the map: (file index, index into the file's
/// tags), with the rank of its score (0 = best; equal scores, equal ranks).
#[derive(Debug, Clone, Copy, PartialEq, Eq, Structural)]
pub struct RankedDef {
    pub file: usize,
    pub tag: usize,
    pub rank: usize,
}

/// Display lines planned for (file, tag) (first entry wins).
pub open spec fn plan_lookup(plan: Seq<((usize, usize), Vec<usize>)>, key: (usize, usize)) -> Option<Seq<usize>>
    decreases plan.len(),
{
    if plan.len() == 0 {
        None
    } else if plan[0].0 == key {
        Some(plan[0].1@)
    } else {
        plan_lookup(plan.drop_first(), key)
    }
}

/// Files of the definitions, in order of first appearance.
pub open spec fn files_of(defs: Seq<RankedDef>) -> Seq<usize>
    decreases defs.len(),
{
    if defs.len() == 0 {
        seq![]
    } else {
        let r = files_of(defs.drop_last());
        if r.contains(defs.last().file) {
            r
        } else {
            r.push(defs.last().file)
        }
    }
}

/// Best (lowest) rank among the definitions of file `f`.
pub open spec fn best_rank(defs: Seq<RankedDef>, f: usize) -> Option<usize>
    decreases defs.len(),
{
    if defs.len() == 0 {
        None
    } else {
        let r = best_rank(defs.drop_last(), f);
        let d = defs.last();
        if d.file != f {
            r
        } else {
            match r {
                None => Some(d.rank),
                Some(b) => Some(if d.rank < b { d.rank } else { b }),
            }
        }
    }
}

/// Line `y` is planned for some definition of file `f`.
pub open spec fn file_shows(defs: Seq<RankedDef>, plan: Seq<((usize, usize), Vec<usize>)>, f: usize, y: usize) -> bool {
    exists|k: int|
        0 <= k < defs.len() && (#[trigger] defs[k]).file == f && (plan_lookup(plan, (f, defs[k].tag)) matches Some(
            ls,
        ) && ls.contains(y))
}

/// All lines planned for the definitions of file `f`, increasing.
pub open spec fn file_lines(defs: Seq<RankedDef>, plan: Seq<((usize, usize), Vec<usize>)>, f: usize) -> Seq<usize> {
    choose|v: Seq<usize>| strictly_increasing(v) && forall|y: usize| v.contains(y) <==> file_shows(defs, plan, f, y)
}

/// (file, best rank, relative path) of a file in the map.
pub type FileKey = (usize, usize, Seq<char>);

/// Files with a better rank first; equal ranks by relative path.
pub open spec fn file_key_le(a: FileKey, b: FileKey) -> bool {
    a.1 < b.1 || (a.1 == b.1 && text_le(a.2, b.2))
}

pub open spec fn file_keys(files: Seq<FileData>, defs: Seq<RankedDef>) -> Seq<FileKey> {
    files_of(defs).map_values(|f: usize| (f, best_rank(defs, f).unwrap(), files[f as int].rel@))
}

/// The order in which files appear in the map.
pub open spec fn file_order(files: Seq<FileData>, defs: Seq<RankedDef>) -> Seq<usize> {
    sort_le(file_keys(files, defs), |a: FileKey, b: FileKey| file_key_le(a, b)).map_values(|k: FileKey| k.0)
}

/// The texts that are not empty, in order.
pub open spec fn nonempty_parts(parts: Seq<Seq<char>>) -> Seq<Seq<char>>
    decreases parts.len(),
{
    if parts.len() == 0 {
        seq![]
    } else {
        let r = nonempty_parts(parts.drop_last());
        if parts.last().len() == 0 {
            r
        } else {
            r.push(parts.last())
        }
    }
}

/// The outline of the selected definitions: each file rendered with all its
/// planned lines, files in `file_order`, separated by blank lines.
pub open spec fn assembled(files: Seq<FileData>, defs: Seq<RankedDef>, plan: Seq<((usize, usize), Vec<usize>)>) -> Seq<char> {
    let order = file_order(files, defs);
    join(
        nonempty_parts(
            order.map_values(
                |f: usize| rendered_file(files[f as int].rel@, files[f as int].source@, file_lines(defs, plan, f)),
            ),
        ),
        "\n"@,
    )
}


// ---------------------------------------------------------------------------
// Lemmas
// ---------------------------------------------------------------------------

pub proof fn lemma_increasing_unique(a: Seq<usize>, b: Seq<usize>)
    requires
        strictly_increasing(a),
        strictly_increasing(b),
        forall|y: usize| a.contains(y) <==> b.contains(y),
    ensures
        a == b,
    decreases a.len(),
{
    if a.len() == 0 {
        if b.len() > 0 {
            assert(b.contains(b[0]));
        }
        assert(a =~= b);
    } else {
        assert(a.contains(a[0]));
        assert(b.contains(a[0]));
        let j = choose|j: int| 0 <= j < b.len() && b[j] == a[0];
        assert(b.contains(b[0]));
        assert(a.contains(b[0]));
        let i = choose|i: int| 0 <= i < a.len() && a[i] == b[0];
        if i > 0 {
            assert(a[0] < a[i]);
        }
        if j > 0 {
            assert(b[0] < b[j]);
        }
        assert(a[0] == b[0]);
        let a1 = a.drop_first();
        let b1 = b.drop_first();
        assert forall|y: usize| a1.contains(y) <==> b1.contains(y) by {
            if a1.contains(y) {
                let k = choose|k: int| 0 <= k < a1.len() && a1[k] == y;
                assert(a[k + 1] == y);
                assert(a[0] < a[k + 1]);
                assert(a.contains(y));
                assert(b.contains(y));
                let q = choose|q: int| 0 <= q < b.len() && b[q] == y;
                assert(q != 0);
                assert(b1[q - 1] == y);
            }
            if b1.contains(y) {
                let k = choose|k: int| 0 <= k < b1.len() && b1[k] == y;
                assert(b[k + 1] == y);
                assert(b[0] < b[k + 1]);
                assert(b.contains(y));
                assert(a.contains(y));
                let q = choose|q: int| 0 <= q < a.len() && a[q] == y;
                assert(q != 0);
                assert(a1[q - 1] == y);
            }
        }
        lemma_increasing_unique(a1, b1);
        assert(a =~= seq![a[0]] + a1);
        assert(b =~= seq![b[0]] + b1);
    }
}

proof fn lemma_files_of_best(defs: Seq<RankedDef>, f: usize)
    ensures
        files_of(defs).contains(f) <==> best_rank(defs, f) is Some,
        !files_of(defs).contains(f) ==> forall|k: int| 0 <= k < defs.len() ==> (#[trigger] defs[k]).file != f,
    decreases defs.len(),
{
    if defs.len() > 0 {
        let p = defs.drop_last();
        lemma_files_of_best(p, f);
        let r = files_of(p);
        let d = defs.last();
        if !r.contains(d.file) {
            assert(r.push(d.file)[r.len() as int] == d.file);
            if r.push(d.file).contains(f) && f != d.file {
                let k = choose|k: int| 0 <= k < r.push(d.file).len() && r.push(d.file)[k] == f;
                assert(r[k] == f);
            }
            if r.contains(f) {
                let k = choose|k: int| 0 <= k < r.len() && r[k] == f;
                assert(r.push(d.file)[k] == f);
            }
        }
        if !files_of(defs).contains(f) {
            assert forall|k: int| 0 <= k < defs.len() implies (#[trigger] defs[k]).file != f by {
                if k < defs.len() - 1 {
                    assert(defs[k] == p[k]);
                }
            }
        }
    }
}

proof fn lemma_file_shows_step(defs: Seq<RankedDef>, d: RankedDef, plan: Seq<((usize, usize), Vec<usize>)>, f: usize, y: usize)
    ensures
        file_shows(defs.push(d), plan, f, y) <==> (file_shows(defs, plan, f, y) || (d.file == f && (plan_lookup(
            plan,
            (f, d.tag),
        ) matches Some(ls) && ls.contains(y)))),
{
    let e = defs.push(d);
    if file_shows(e, plan, f, y) {
        let k = choose|k: int|
            0 <= k < e.len() && (#[trigger] e[k]).file == f && (plan_lookup(plan, (f, e[k].tag)) matches Some(ls)
                && ls.contains(y));
        if k < defs.len() {
            assert(defs[k] == e[k]);
        }
    }
    if file_shows(defs, plan, f, y) {
        let k = choose|k: int|
            0 <= k < defs.len() && (#[trigger] defs[k]).file == f && (plan_lookup(plan, (f, defs[k].tag)) matches Some(
                ls,
            ) && ls.contains(y));
        assert(e[k] == defs[k]);
    }
    if d.file == f && (plan_lookup(plan, (f, d.tag)) matches Some(ls) && ls.contains(y)) {
        assert(e[defs.len() as int] == d);
    }
}

// ---------------------------------------------------------------------------
// Executable assembly
// ---------------------------------------------------------------------------

fn plan_get(plan: &Vec<((usize, usize), Vec<usize>)>, key: (usize, usize)) -> (r: Option<usize>)
    ensures
        match r {
            Some(p) => p < plan@.len() && plan_lookup(plan@, key) == Some(plan@[p as int].1@),
            None => plan_lookup(plan@, key) is None,
        },
{
    let mut i: usize = 0;
    assert(plan@.skip(0) =~= plan@);
    while i < plan.len()
        invariant
            i <= plan@.len(),
            plan_lookup(plan@, key) == plan_lookup(plan@.skip(i as int), key),
        decreases plan@.len() - i,
    {
        let ghost rest = plan@.skip(i as int);
        assert(rest[0] == plan@[i as int]);
        assert(rest.drop_first() =~= plan@.skip(i + 1));
        if plan[i].0.0 == key.0 && plan[i].0.1 == key.1 {
            return Some(i);
        }
        i = i + 1;
    }
    None
}

/// Adds every line of `ls` to the increasing vector `v`.
fn merge_lines(v: &mut Vec<usize>, ls: &Vec<usize>)
    requires
        strictly_increasing(old(v)@),
    ensures
        strictly_increasing(final(v)@),
        forall|y: usize| #[trigger] final(v)@.contains(y) <==> (old(v)@.contains(y) || ls@.contains(y)),
{
    let mut i: usize = 0;
    while i < ls.len()
        invariant
            i <= ls@.len(),
            strictly_increasing(v@),
            forall|y: usize| v@.contains(y) <==> (old(v)@.contains(y) || ls@.take(i as int).contains(y)),
        decreases ls@.len() - i,
    {
        insert_line(v, ls[i]);
        proof {
            let t1 = ls@.take(i + 1);
            let t0 = ls@.take(i as int);
            assert forall|y: usize| t1.contains(y) <==> (t0.contains(y) || y == ls@[i as int]) by {
                if t1.contains(y) {
                    let k = choose|k: int| 0 <= k < t1.len() && t1[k] == y;
                    if k < i {
                        assert(t0[k] == y);
                    }
                }
                if t0.contains(y) {
                    let k = choose|k: int| 0 <= k < t0.len() && t0[k] == y;
                    assert(t1[k] == y);
                }
                if y == ls@[i as int] {
                    assert(t1[i as int] == y);
                }
            }
        }
        i = i + 1;
    }
    assert(ls@.take(ls@.len() as int) =~= ls@);
}


fn find_pos(v: &Vec<usize>, x: usize) -> (r: Option<usize>)
    ensures
        match r {
            Some(p) => p < v@.len() && v@[p as int] == x,
            None => !v@.contains(x),
        },
{
    let mut i: usize = 0;
    while i < v.len()
        invariant
            i <= v@.len(),
            forall|j: int| 0 <= j < i ==> v@[j] != x,
        decreases v@.len() - i,
    {
        if v[i] == x {
            return Some(i);
        }
        i = i + 1;
    }
    None
}

pub open spec fn defs_in_range(files: Seq<FileData>, defs: Seq<RankedDef>) -> bool {
    forall|k: int| 0 <= k < defs.len() ==> (#[trigger] defs[k]).file < files.len()
}

/// Render the map for the first `n` selected definitions.
pub fn assemble_map(idx: &Index, defs: &Vec<RankedDef>, n: usize, plan: &Vec<((usize, usize), Vec<usize>)>) -> (r: String)
    requires
        n <= defs@.len(),
        defs_in_range(idx.files@, defs@),
    ensures
        r@ == assembled(idx.files@, defs@.take(n as int), plan@),
{
    let ghost dd = defs@.take(n as int);
    // group by file, in order of first appearance
    let mut fs: Vec<usize> = Vec::new();
    let mut bests: Vec<usize> = Vec::new();
    let mut lines: Vec<Vec<usize>> = Vec::new();
    let mut k: usize = 0;
    assert(dd.take(0) =~= Seq::<RankedDef>::empty());
    while k < n
        invariant
            k <= n <= defs@.len(),
            dd == defs@.take(n as int),
            defs_in_range(idx.files@, defs@),
            fs@ == files_of(dd.take(k as int)),
            bests@.len() == fs@.len(),
            lines@.len() == fs@.len(),
            forall|e: int| 0 <= e < fs@.len() ==> Some(#[trigger] bests@[e]) == best_rank(dd.take(k as int), fs@[e]),
            forall|e: int| 0 <= e < fs@.len() ==> strictly_increasing(#[trigger] lines@[e]@),
            forall|e: int, y: usize| 0 <= e < fs@.len() ==> (#[trigger] lines@[e]@.contains(y) <==> file_shows(dd.take(k as int), plan@, fs@[e], y)),
            forall|e: int| 0 <= e < fs@.len() ==> (#[trigger] fs@[e]) < idx.files@.len(),
        decreases n - k,
    {
        let d = defs[k];
        let ghost pre = dd.take(k as int);
        let ghost post = dd.take(k + 1);
        assert(post =~= pre.push(d));
        assert(post.drop_last() == pre);
        proof {
            lemma_files_of_best(pre, d.file);
        }
        let pl = plan_get(plan, (d.file, d.tag));
        match find_pos(&fs, d.file) {
            None => {
                let mut ls: Vec<usize> = Vec::new();
                match pl {
                    Some(p) => merge_lines(&mut ls, &plan[p].1),
                    None => {},
                }
                let ghost old_lines = lines@;
                let ghost old_bests = bests@;
                let ghost old_fs = fs@;
                fs.push(d.file);
                bests.push(d.rank);
                lines.push(ls);
                proof {
                    assert forall|e: int| 0 <= e < fs@.len() implies Some(#[trigger] bests@[e]) == best_rank(post, fs@[e]) by {
                        if e < old_fs.len() {
                            assert(old_fs[e] != d.file);
                        }
                    }
                    assert forall|e: int, y: usize| 0 <= e < fs@.len() implies (#[trigger] lines@[e]@.contains(y) <==> file_shows(post, plan@, fs@[e], y)) by {
                        lemma_file_shows_step(pre, d, plan@, fs@[e], y);
                        if e < old_fs.len() {
                            assert(old_fs[e] != d.file);
                            assert(lines@[e] == old_lines[e]);
                        } else {
                            if file_shows(pre, plan@, d.file, y) {
                                let q = choose|q: int|
                                    0 <= q < pre.len() && (#[trigger] pre[q]).file == d.file && (plan_lookup(plan@, (d.file, pre[q].tag)) matches Some(ls)
                                        && ls.contains(y));
                                assert(false);
                            }
                        }
                    }
                    assert forall|e: int| 0 <= e < fs@.len() implies strictly_increasing(#[trigger] lines@[e]@) by {
                        if e < old_fs.len() {
                            assert(lines@[e] == old_lines[e]);
                        }
                    }
                    assert(defs@[k as int] == d);
                }
            },
            Some(e0) => {
                let ghost old_lines = lines@;
                assert(forall|y: usize| #[trigger] old_lines[e0 as int]@.contains(y) <==> file_shows(pre, plan@, fs@[e0 as int], y));
                let ghost old_bests = bests@;
                if d.rank < bests[e0] {
                    bests.set(e0, d.rank);
                }
                match pl {
                    Some(p) => merge_lines(&mut lines[e0], &plan[p].1),
                    None => {},
                }
                proof {
                    let extra: Seq<usize> = match pl {
                        Some(p) => plan@[p as int].1@,
                        None => seq![],
                    };
                    assert(forall|y: usize| #[trigger] lines@[e0 as int]@.contains(y) <==> (old_lines[e0 as int]@.contains(y) || extra.contains(y)));
                    assert(forall|y: usize| #[trigger] extra.contains(y) <==> (plan_lookup(plan@, (d.file, d.tag)) matches Some(ls) && ls.contains(y)));
                    assert(fs@[e0 as int] == d.file);
                    assert forall|e: int| 0 <= e < fs@.len() implies Some(#[trigger] bests@[e]) == best_rank(post, fs@[e]) by {
                        if e != e0 {
                            assert(bests@[e] == old_bests[e]);
                            if fs@[e] == d.file {
                                lemma_files_of_distinct(pre, e, e0 as int);
                            }
                        }
                    }
                    assert forall|e: int, y: usize| 0 <= e < fs@.len() implies (#[trigger] lines@[e]@.contains(y) <==> file_shows(post, plan@, fs@[e], y)) by {
                        lemma_file_shows_step(pre, d, plan@, fs@[e], y);
                        if e != e0 {
                            assert(lines@[e] == old_lines[e]);
                            if fs@[e] == d.file {
                                lemma_files_of_distinct(pre, e, e0 as int);
                            }
                        } else {
                            assert(old_lines[e]@.contains(y) <==> file_shows(pre, plan@, fs@[e], y));
                            assert(lines@[e]@.contains(y) <==> (old_lines[e]@.contains(y) || extra.contains(y)));
                            assert(extra.contains(y) <==> (plan_lookup(plan@, (d.file, d.tag)) matches Some(ls) && ls.contains(y)));
                        }
                    }
                    assert forall|e: int| 0 <= e < fs@.len() implies strictly_increasing(#[trigger] lines@[e]@) by {
                        if e != e0 {
                            assert(lines@[e] == old_lines[e]);
                        }
                    }
                }
            },
        }
        k = k + 1;
    }
    assert(dd.take(n as int) =~= dd);
    r_order_and_render(idx, &fs, &bests, &lines, Ghost(dd), Ghost(plan@))
}

proof fn lemma_files_of_distinct(defs: Seq<RankedDef>, i: int, j: int)
    requires
        0 <= i < files_of(defs).len(),
        0 <= j < files_of(defs).len(),
        i != j,
    ensures
        files_of(defs)[i] != files_of(defs)[j],
    decreases defs.len(),
{
    if defs.len() > 0 {
        let p = defs.drop_last();
        let r = files_of(p);
        if i < r.len() && j < r.len() {
            lemma_files_of_distinct(p, i, j);
        } else if i >= r.len() {
            assert(files_of(defs)[j] == r[j]);
        } else {
            assert(files_of(defs)[i] == r[i]);
        }
    }
}


proof fn lemma_file_key_le_total_preorder()
    ensures
        total_preorder(|a: FileKey, b: FileKey| file_key_le(a, b)),
{
    let le = |a: FileKey, b: FileKey| file_key_le(a, b);
    assert forall|x: FileKey, y: FileKey| #[trigger] le(x, y) || le(y, x) by {
        lemma_text_le_total(x.2, y.2);
    }
    assert forall|x: FileKey, y: FileKey, z: FileKey| #[trigger] le(x, y) && #[trigger] le(y, z) implies le(x, z) by {
        if x.1 == y.1 && y.1 == z.1 {
            lemma_text_le_trans(x.2, y.2, z.2);
        }
    }
}

/// Files in the map: every file of the selected definitions appears once;
/// files with a better (lower) best rank come first, and files with the same
/// best rank come in order of relative path.
pub proof fn file_order_law(files: Seq<FileData>, defs: Seq<RankedDef>)
    requires
        defs_in_range(files, defs),
    ensures
        ({
            let o = file_order(files, defs);
            &&& o.len() == files_of(defs).len()
            &&& forall|f: usize| #[trigger] o.contains(f) <==> files_of(defs).contains(f)
            &&& forall|a: int, b: int| 0 <= a < b < o.len() ==> o[a] != o[b]
            &&& forall|a: int, b: int| 0 <= a < b < o.len() ==> best_rank(defs, #[trigger] o[a]).unwrap() <= best_rank(defs, #[trigger] o[b]).unwrap()
            &&& forall|a: int, b: int| 0 <= a < b < o.len() && best_rank(defs, #[trigger] o[a]) == best_rank(defs, #[trigger] o[b]) ==> text_le(
                files[o[a] as int].rel@,
                files[o[b] as int].rel@,
            )
        }),
{
    broadcast use vstd::seq_lib::group_to_multiset_ensures;

    let le = |a: FileKey, b: FileKey| file_key_le(a, b);
    let keys = file_keys(files, defs);
    let fo = files_of(defs);
    lemma_file_key_le_total_preorder();
    lemma_sort_le_sorted(keys, le);
    let sorted = sort_le(keys, le);
    let o = file_order(files, defs);
    assert(o == sorted.map_values(|k: FileKey| k.0));
    let key_of = |f: usize| (f, best_rank(defs, f).unwrap(), files[f as int].rel@);
    // every sorted key is the key of its file, and of a file of the definitions
    assert forall|a: int| 0 <= a < sorted.len() implies #[trigger] sorted[a] == key_of(sorted[a].0) && fo.contains(sorted[a].0) by {
        assert(sorted.to_multiset().count(sorted[a]) > 0);
        assert(keys.to_multiset().count(sorted[a]) > 0);
        assert(keys.contains(sorted[a]));
        let i = choose|i: int| 0 <= i < keys.len() && keys[i] == sorted[a];
        assert(keys[i] == key_of(fo[i]));
    }
    // keys have no duplicates, so neither do the sorted keys
    assert(keys.no_duplicates()) by {
        assert forall|i: int, j: int| 0 <= i < keys.len() && 0 <= j < keys.len() && i != j implies keys[i] != keys[j] by {
            lemma_files_of_distinct(defs, i, j);
        }
    }
    keys.lemma_multiset_has_no_duplicates();
    sorted.lemma_multiset_has_no_duplicates_conv();
    assert forall|a: int, b: int| 0 <= a < b < o.len() implies o[a] != o[b] by {
        assert(sorted[a] != sorted[b]);
    }
    assert forall|f: usize| #[trigger] o.contains(f) <==> fo.contains(f) by {
        if o.contains(f) {
            let a = choose|a: int| 0 <= a < o.len() && o[a] == f;
            assert(sorted[a] == key_of(sorted[a].0));
        }
        if fo.contains(f) {
            let i = choose|i: int| 0 <= i < fo.len() && fo[i] == f;
            assert(keys[i].0 == f);
            assert(keys.to_multiset().count(keys[i]) > 0);
            assert(sorted.to_multiset().count(keys[i]) > 0);
            assert(sorted.contains(keys[i]));
            let a = choose|a: int| 0 <= a < sorted.len() && sorted[a] == keys[i];
            assert(o[a] == f);
        }
    }
    assert(sorted.len() == keys.len()) by {
        assert(sorted.to_multiset().len() == keys.to_multiset().len());
    }
    assert forall|a: int, b: int| 0 <= a < b < o.len() implies best_rank(defs, #[trigger] o[a]).unwrap() <= best_rank(defs, #[trigger] o[b]).unwrap() by {
        assert(le(sorted[a], sorted[b]));
        assert(sorted[a] == key_of(sorted[a].0));
        assert(sorted[b] == key_of(sorted[b].0));
    }
    assert forall|a: int, b: int| 0 <= a < b < o.len() && best_rank(defs, #[trigger] o[a]) == best_rank(defs, #[trigger] o[b]) implies text_le(
        files[o[a] as int].rel@,
        files[o[b] as int].rel@,
    ) by {
        assert(le(sorted[a], sorted[b]));
        assert(sorted[a] == key_of(sorted[a].0));
        assert(sorted[b] == key_of(sorted[b].0));
    }
}

pub open spec fn key_le() -> spec_fn(FileKey, FileKey) -> bool {
    |a: FileKey, b: FileKey| file_key_le(a, b)
}

fn r_order_and_render(
    idx: &Index,
    fs: &Vec<usize>,
    bests: &Vec<usize>,
    lines: &Vec<Vec<usize>>,
    Ghost(dd): Ghost<Seq<RankedDef>>,
    Ghost(plan): Ghost<Seq<((usize, usize), Vec<usize>)>>,
) -> (r: String)
    requires
        fs@ == files_of(dd),
        bests@.len() == fs@.len(),
        lines@.len() == fs@.len(),
        forall|e: int| 0 <= e < fs@.len() ==> Some(#[trigger] bests@[e]) == best_rank(dd, fs@[e]),
        forall|e: int| 0 <= e < fs@.len() ==> strictly_increasing(#[trigger] lines@[e]@),
        forall|e: int, y: usize| 0 <= e < fs@.len() ==> (#[trigger] lines@[e]@.contains(y) <==> file_shows(dd, plan, fs@[e], y)),
        forall|e: int| 0 <= e < fs@.len() ==> (#[trigger] fs@[e]) < idx.files@.len(),
    ensures
        r@ == assembled(idx.files@, dd, plan),
{
    let ghost files = idx.files@;
    let ghost keys = file_keys(files, dd);
    let ghost le = key_le();
    let mut rels: Vec<Vec<char>> = Vec::new();
    let mut i: usize = 0;
    while i < fs.len()
        invariant
            i <= fs@.len(),
            files == idx.files@,
            forall|e: int| 0 <= e < fs@.len() ==> (#[trigger] fs@[e]) < idx.files@.len(),
            rels@.len() == i,
            forall|e: int| 0 <= e < i ==> (#[trigger] rels@[e])@ == files[fs@[e] as int].rel@,
        decreases fs@.len() - i,
    {
        rels.push(chars_of(idx.files[fs[i]].rel.as_str()));
        i = i + 1;
    }
    // keys[e] describes position e
    assert forall|e: int| 0 <= e < fs@.len() implies #[trigger] keys[e] == (fs@[e], bests@[e], rels@[e]@) by {
        assert(best_rank(dd, fs@[e]) == Some(bests@[e]));
    }
    let mut order: Vec<usize> = Vec::new();
    let mut i: usize = 0;
    assert(keys.take(0) =~= Seq::<FileKey>::empty());
    assert(order@.map_values(|p: usize| keys[p as int]) =~= Seq::<FileKey>::empty());
    while i < fs.len()
        invariant
            i <= fs@.len(),
            keys.len() == fs@.len(),
            bests@.len() == fs@.len(),
            rels@.len() == fs@.len(),
            le == key_le(),
            forall|e: int| 0 <= e < fs@.len() ==> #[trigger] keys[e] == (fs@[e], bests@[e], rels@[e]@),
            order@.len() == i,
            forall|q: int| 0 <= q < order@.len() ==> (#[trigger] order@[q]) < i,
            order@.map_values(|p: usize| keys[p as int]) == sort_le(keys.take(i as int), le),
        decreases fs@.len() - i,
    {
        let mut j: usize = order.len();
        while j > 0 && !(bests[order[j - 1]] < bests[i] || (bests[order[j - 1]] == bests[i] && text_le_exec(&rels[order[j - 1]], &rels[i])))
            invariant
                j <= order@.len(),
                i < fs@.len(),
                bests@.len() == fs@.len(),
                rels@.len() == fs@.len(),
                le == key_le(),
                forall|e: int| 0 <= e < fs@.len() ==> #[trigger] keys[e] == (fs@[e], bests@[e], rels@[e]@),
                forall|q: int| 0 <= q < order@.len() ==> (#[trigger] order@[q]) < i,
                forall|m: int| j <= m < order@.len() ==> !le(keys[order@[m] as int], keys[i as int]),
            decreases j,
        {
            assert(keys[order@[j - 1] as int] == (fs@[order@[j - 1] as int], bests@[order@[j - 1] as int], rels@[order@[j - 1] as int]@));
            j = j - 1;
        }
        let ghost sorted = order@.map_values(|p: usize| keys[p as int]);
        proof {
            if j > 0 {
                assert(sorted[j - 1] == keys[order@[j - 1] as int]);
                assert(le(sorted[j - 1], keys[i as int]));
            }
            assert forall|m: int| j <= m < sorted.len() implies !le(#[trigger] sorted[m], keys[i as int]) by {
                assert(sorted[m] == keys[order@[m] as int]);
            }
            lemma_insert_le_at(sorted, keys[i as int], le, j as int);
            assert(keys.take(i + 1).drop_last() =~= keys.take(i as int));
            assert(keys.take(i + 1).last() == keys[i as int]);
        }
        order.insert(j, i);
        assert(order@.map_values(|p: usize| keys[p as int]) =~= sorted.insert(j as int, keys[i as int]));
        i = i + 1;
        assert forall|q: int| 0 <= q < order@.len() implies (#[trigger] order@[q]) < i by {
        }
    }
    assert(keys.take(fs@.len() as int) =~= keys);
    let ghost sorted_keys = sort_le(keys, le);
    let ghost forder = file_order(files, dd);
    assert(forder == sorted_keys.map_values(|k: FileKey| k.0));
    // render in order
    let ghost rendered = forder.map_values(
        |f: usize| rendered_file(files[f as int].rel@, files[f as int].source@, file_lines(dd, plan, f)),
    );
    let mut parts: Vec<Vec<char>> = Vec::new();
    let mut q: usize = 0;
    assert(rendered.take(0) =~= Seq::<Seq<char>>::empty());
    while q < order.len()
        invariant
            q <= order@.len() == fs@.len(),
            lines@.len() == fs@.len(),
            files == idx.files@,
            forall|e: int| 0 <= e < fs@.len() ==> (#[trigger] fs@[e]) < idx.files@.len(),
            forall|e: int| 0 <= e < fs@.len() ==> strictly_increasing(#[trigger] lines@[e]@),
            forall|e: int, y: usize| 0 <= e < fs@.len() ==> (#[trigger] lines@[e]@.contains(y) <==> file_shows(dd, plan, fs@[e], y)),
            forall|m: int| 0 <= m < order@.len() ==> (#[trigger] order@[m]) < fs@.len(),
            forall|e: int| 0 <= e < fs@.len() ==> #[trigger] keys[e] == (fs@[e], bests@[e], rels@[e]@),
            order@.map_values(|p: usize| keys[p as int]) == sorted_keys,
            rendered.len() == order@.len(),
            rendered == forder.map_values(
                |f: usize| rendered_file(files[f as int].rel@, files[f as int].source@, file_lines(dd, plan, f)),
            ),
            forder == sorted_keys.map_values(|k: FileKey| k.0),
            seqs_of(parts@) == nonempty_parts(rendered.take(q as int)),
        decreases order@.len() - q,
    {
        let p = order[q];
        let f = fs[p];
        proof {
            assert(sorted_keys[q as int] == keys[p as int]);
            assert(forder[q as int] == f);
            let lv = lines@[p as int]@;
            let fl = file_lines(dd, plan, f);
            assert(strictly_increasing(lv) && forall|y: usize| lv.contains(y) <==> file_shows(dd, plan, f, y));
            assert(strictly_increasing(fl) && forall|y: usize| fl.contains(y) <==> file_shows(dd, plan, f, y));
            lemma_increasing_unique(lv, fl);
            assert(rendered[q as int] == rendered_file(files[f as int].rel@, files[f as int].source@, lv));
            assert(rendered.take(q + 1).drop_last() =~= rendered.take(q as int));
        }
        let out = render_file(idx.files[f].rel.as_str(), idx.files[f].source.as_str(), &lines[p]);
        let oc = chars_of(out.as_str());
        if oc.len() > 0 {
            let ghost before = parts@;
            parts.push(oc);
            assert(seqs_of(parts@) =~= seqs_of(before).push(oc@));
        }
        q = q + 1;
    }
    assert(rendered.take(order@.len() as int) =~= rendered);
    let sep = chars_of("\n");
    let joined = join_chars(&parts, &sep);
    crate::text::string_of(&joined)
}


/// The outline of the first `n` definitions fits the token budget.
pub open spec fn fits(
    files: Seq<FileData>,
    defs: Seq<RankedDef>,
    plan: Seq<((usize, usize), Vec<usize>)>,
    tokens: usize,
    n: int,
) -> bool {
    token_estimate(assembled(files, defs.take(n), plan).len()) <= tokens
}

/// Fitting is monotone: fewer definitions fit whenever more do.
pub open spec fn fits_monotone(
    files: Seq<FileData>,
    defs: Seq<RankedDef>,
    plan: Seq<((usize, usize), Vec<usize>)>,
    tokens: usize,
) -> bool {
    forall|a: int, b: int|
        1 <= b <= a <= defs.len() && #[trigger] fits(files, defs, plan, tokens, a) ==> #[trigger] fits(
            files,
            defs,
            plan,
            tokens,
            b,
        )
}

// ---------------------------------------------------------------------------
// Growth of the outline with the number of definitions
// ---------------------------------------------------------------------------

/// `v` (increasing) with `x` added unless already there.
pub open spec fn insert_sorted(v: Seq<usize>, x: usize) -> Seq<usize>
    decreases v.len(),
{
    if v.len() == 0 {
        seq![x]
    } else if v.last() < x {
        v.push(x)
    } else if v.last() == x {
        v
    } else {
        insert_sorted(v.drop_last(), x).push(v.last())
    }
}

proof fn lemma_insert_sorted(v: Seq<usize>, x: usize)
    requires
        strictly_increasing(v),
    ensures
        strictly_increasing(insert_sorted(v, x)),
        forall|y: usize| #[trigger] insert_sorted(v, x).contains(y) <==> (v.contains(y) || y == x),
    decreases v.len(),
{
    if v.len() == 0 {
        assert(seq![x][0] == x);
    } else if v.last() < x {
        let r = v.push(x);
        assert forall|y: usize| #[trigger] r.contains(y) <==> (v.contains(y) || y == x) by {
            if r.contains(y) {
                let k = choose|k: int| 0 <= k < r.len() && r[k] == y;
                if k < v.len() {
                    assert(v[k] == y);
                }
            }
            if v.contains(y) {
                let k = choose|k: int| 0 <= k < v.len() && v[k] == y;
                assert(r[k] == y);
            }
            if y == x {
                assert(r[v.len() as int] == y);
            }
        }
    } else if v.last() == x {
        assert(v.contains(x)) by {
            assert(v[v.len() - 1] == x);
        }
    } else {
        let u = v.drop_last();
        assert(strictly_increasing(u)) by {
            assert forall|i: int, j: int| 0 <= i < j < u.len() implies u[i] < u[j] by {
                assert(u[i] == v[i] && u[j] == v[j]);
            }
        }
        lemma_insert_sorted(u, x);
        let q = insert_sorted(u, x);
        let r = q.push(v.last());
        assert forall|i: int| 0 <= i < q.len() implies q[i] < v.last() by {
            assert(q.contains(q[i]));
            if q[i] != x {
                assert(u.contains(q[i]));
                let k = choose|k: int| 0 <= k < u.len() && u[k] == q[i];
                assert(v[k] == u[k]);
            }
        }
        assert forall|i: int, j: int| 0 <= i < j < r.len() implies r[i] < r[j] by {
            if j == q.len() {
                assert(r[i] == q[i]);
            } else {
                assert(r[i] == q[i] && r[j] == q[j]);
            }
        }
        assert forall|y: usize| #[trigger] r.contains(y) <==> (v.contains(y) || y == x) by {
            if r.contains(y) {
                let k = choose|k: int| 0 <= k < r.len() && r[k] == y;
                if k < q.len() {
                    assert(q[k] == y);
                    assert(q.contains(y));
                    if y != x {
                        let p = choose|p: int| 0 <= p < u.len() && u[p] == y;
                        assert(v[p] == y);
                    }
                } else {
                    assert(v[v.len() - 1] == y);
                }
            }
            if v.contains(y) {
                let k = choose|k: int| 0 <= k < v.len() && v[k] == y;
                if k < v.len() - 1 {
                    assert(u[k] == y);
                    assert(q.contains(y));
                    let p = choose|p: int| 0 <= p < q.len() && q[p] == y;
                    assert(r[p] == y);
                } else {
                    assert(r[q.len() as int] == y);
                }
            }
            if y == x {
                assert(q.contains(y));
                let p = choose|p: int| 0 <= p < q.len() && q[p] == y;
                assert(r[p] == y);
            }
        }
    }
}

/// `v` (increasing) with the first `k` entries of `ls` added.
pub open spec fn insert_all(v: Seq<usize>, ls: Seq<usize>, k: int) -> Seq<usize>
    decreases k,
{
    if k <= 0 {
        v
    } else {
        insert_sorted(insert_all(v, ls, k - 1), ls[k - 1])
    }
}

proof fn lemma_insert_all(v: Seq<usize>, ls: Seq<usize>, k: int)
    requires
        strictly_increasing(v),
        0 <= k <= ls.len(),
    ensures
        strictly_increasing(insert_all(v, ls, k)),
        forall|y: usize| #[trigger] insert_all(v, ls, k).contains(y) <==> (v.contains(y) || ls.take(k).contains(y)),
    decreases k,
{
    if k > 0 {
        lemma_insert_all(v, ls, k - 1);
        lemma_insert_sorted(insert_all(v, ls, k - 1), ls[k - 1]);
        assert forall|y: usize| #[trigger] insert_all(v, ls, k).contains(y) <==> (v.contains(y) || ls.take(k).contains(y)) by {
            assert(ls.take(k) =~= ls.take(k - 1).push(ls[k - 1]));
            let tk = ls.take(k);
            let tk1 = ls.take(k - 1);
            if tk.contains(y) {
                let p = choose|p: int| 0 <= p < tk.len() && tk[p] == y;
                if p < k - 1 {
                    assert(tk1[p] == y);
                }
            }
            if tk1.contains(y) {
                let p = choose|p: int| 0 <= p < tk1.len() && tk1[p] == y;
                assert(tk[p] == y);
            }
            if y == ls[k - 1] {
                assert(tk[k - 1] == y);
            }
        }
    } else {
        assert forall|y: usize| !#[trigger] ls.take(0).contains(y) by {}
    }
}

proof fn lemma_file_lines_exist(defs: Seq<RankedDef>, plan: Seq<((usize, usize), Vec<usize>)>, f: usize)
    ensures
        exists|v: Seq<usize>| strictly_increasing(v) && forall|y: usize| v.contains(y) <==> file_shows(defs, plan, f, y),
    decreases defs.len(),
{
    if defs.len() == 0 {
        let v: Seq<usize> = seq![];
        assert(strictly_increasing(v) && forall|y: usize| v.contains(y) <==> file_shows(defs, plan, f, y));
    } else {
        let pre = defs.drop_last();
        let d = defs.last();
        lemma_file_lines_exist(pre, plan, f);
        let v = choose|v: Seq<usize>| strictly_increasing(v) && forall|y: usize| v.contains(y) <==> file_shows(pre, plan, f, y);
        let ls: Seq<usize> = if d.file == f && plan_lookup(plan, (f, d.tag)) is Some {
            plan_lookup(plan, (f, d.tag)).unwrap()
        } else {
            seq![]
        };
        lemma_insert_all(v, ls, ls.len() as int);
        let w = insert_all(v, ls, ls.len() as int);
        assert(ls.take(ls.len() as int) =~= ls);
        assert(defs == pre.push(d));
        assert forall|y: usize| w.contains(y) <==> file_shows(defs, plan, f, y) by {
            lemma_file_shows_step(pre, d, plan, f, y);
        }
        assert(strictly_increasing(w) && forall|y: usize| w.contains(y) <==> file_shows(defs, plan, f, y));
    }
}

proof fn lemma_file_lines(defs: Seq<RankedDef>, plan: Seq<((usize, usize), Vec<usize>)>, f: usize)
    ensures
        strictly_increasing(file_lines(defs, plan, f)),
        forall|y: usize| #[trigger] file_lines(defs, plan, f).contains(y) <==> file_shows(defs, plan, f, y),
{
    lemma_file_lines_exist(defs, plan, f);
}

proof fn lemma_file_shows_prefix(defs: Seq<RankedDef>, plan: Seq<((usize, usize), Vec<usize>)>, f: usize, y: usize, n: int, m: int)
    requires
        0 <= n <= m <= defs.len(),
        file_shows(defs.take(n), plan, f, y),
    ensures
        file_shows(defs.take(m), plan, f, y),
{
    let dn = defs.take(n);
    let k = choose|k: int|
        0 <= k < dn.len() && (#[trigger] dn[k]).file == f && (plan_lookup(plan, (f, dn[k].tag)) matches Some(ls) && ls.contains(y));
    assert(defs.take(m)[k] == dn[k]);
}

/// Sum of `g` over `s`.
pub open spec fn sum_of<T>(s: Seq<T>, g: spec_fn(T) -> nat) -> nat
    decreases s.len(),
{
    if s.len() == 0 {
        0
    } else {
        sum_of(s.drop_last(), g) + g(s.last())
    }
}

proof fn lemma_sum_insert<T>(s: Seq<T>, j: int, x: T, g: spec_fn(T) -> nat)
    requires
        0 <= j <= s.len(),
    ensures
        sum_of(s.insert(j, x), g) == sum_of(s, g) + g(x),
    decreases s.len(),
{
    if j == s.len() {
        assert(s.insert(j, x) =~= s.push(x));
        assert(s.push(x).drop_last() =~= s);
    } else {
        let u = s.drop_last();
        lemma_sum_insert(u, j, x, g);
        assert(s.insert(j, x) =~= u.insert(j, x).push(s.last()));
        assert(u.insert(j, x).push(s.last()).drop_last() =~= u.insert(j, x));
    }
}

proof fn lemma_insert_le_position<T>(s: Seq<T>, x: T, le: spec_fn(T, T) -> bool)
    ensures
        exists|j: int| 0 <= j <= s.len() && insert_le(s, x, le) == s.insert(j, x),
    decreases s.len(),
{
    if s.len() == 0 || le(s.last(), x) {
        assert(s.push(x) =~= s.insert(s.len() as int, x));
    } else {
        let u = s.drop_last();
        lemma_insert_le_position(u, x, le);
        let j = choose|j: int| 0 <= j <= u.len() && insert_le(u, x, le) == u.insert(j, x);
        assert(u.insert(j, x).push(s.last()) =~= s.insert(j, x));
    }
}

proof fn lemma_sum_sort_le<T>(s: Seq<T>, le: spec_fn(T, T) -> bool, g: spec_fn(T) -> nat)
    ensures
        sum_of(sort_le(s, le), g) == sum_of(s, g),
    decreases s.len(),
{
    if s.len() > 0 {
        let u = s.drop_last();
        lemma_sum_sort_le(u, le, g);
        lemma_insert_le_position(sort_le(u, le), s.last(), le);
        let j = choose|j: int| 0 <= j <= sort_le(u, le).len() && insert_le(sort_le(u, le), s.last(), le) == sort_le(u, le).insert(j, s.last());
        lemma_sum_insert(sort_le(u, le), j, s.last(), g);
    }
}

proof fn lemma_sum_map<A, B>(s: Seq<A>, h: spec_fn(A) -> B, g: spec_fn(B) -> nat, k: spec_fn(A) -> nat)
    requires
        forall|a: A| #[trigger] k(a) == g(h(a)),
    ensures
        sum_of(s.map_values(h), g) == sum_of(s, k),
    decreases s.len(),
{
    if s.len() > 0 {
        lemma_sum_map(s.drop_last(), h, g, k);
        assert(s.map_values(h).drop_last() =~= s.drop_last().map_values(h));
        assert(k(s.last()) == g(h(s.last())));
    }
}

proof fn lemma_sum_le<T>(s: Seq<T>, g1: spec_fn(T) -> nat, g2: spec_fn(T) -> nat)
    requires
        forall|t: T| #[trigger] g1(t) <= g2(t),
    ensures
        sum_of(s, g1) <= sum_of(s, g2),
    decreases s.len(),
{
    if s.len() > 0 {
        lemma_sum_le(s.drop_last(), g1, g2);
        assert(g1(s.last()) <= g2(s.last()));
    }
}

proof fn lemma_sum_append<T>(a: Seq<T>, b: Seq<T>, g: spec_fn(T) -> nat)
    ensures
        sum_of(a + b, g) == sum_of(a, g) + sum_of(b, g),
    decreases b.len(),
{
    if b.len() == 0 {
        assert(a + b =~= a);
    } else {
        lemma_sum_append(a, b.drop_last(), g);
        assert((a + b).drop_last() =~= a + b.drop_last());
        assert((a + b).last() == b.last());
    }
}

/// The share of one rendered file in the joined outline: its length and the
/// separator before it, nothing when it is empty.
pub open spec fn part_weight(x: Seq<char>) -> nat {
    if x.len() > 0 { x.len() + 1 } else { 0 }
}

proof fn lemma_join_nonempty_len(xs: Seq<Seq<char>>)
    ensures
        sum_of(xs, |x: Seq<char>| part_weight(x)) == 0 <==> nonempty_parts(xs).len() == 0,
        join(nonempty_parts(xs), "\n"@).len() == if sum_of(xs, |x: Seq<char>| part_weight(x)) == 0 {
            0
        } else {
            (sum_of(xs, |x: Seq<char>| part_weight(x)) - 1) as nat
        },
    decreases xs.len(),
{
    reveal_strlit("\n");
    if xs.len() > 0 {
        let u = xs.drop_last();
        lemma_join_nonempty_len(u);
        let ps = nonempty_parts(u);
        let x = xs.last();
        if x.len() > 0 {
            let qs = ps.push(x);
            assert(qs.drop_last() =~= ps);
            if ps.len() > 0 {
                assert(join(qs, "\n"@) == join(ps, "\n"@) + "\n"@ + x);
            } else {
                assert(qs[0] == x);
            }
        }
    }
}

/// Sum of part weights of the files in `order`, each rendered with its lines for `defs`.
pub open spec fn file_weight(files: Seq<FileData>, defs: Seq<RankedDef>, plan: Seq<((usize, usize), Vec<usize>)>) -> spec_fn(usize) -> nat {
    |f: usize| part_weight(rendered_file(files[f as int].rel@, files[f as int].source@, file_lines(defs, plan, f)))
}

proof fn lemma_files_of_prefix(defs: Seq<RankedDef>, n: int, m: int)
    requires
        0 <= n <= m <= defs.len(),
    ensures
        exists|extra: Seq<usize>| files_of(defs.take(m)) == files_of(defs.take(n)) + extra,
    decreases m - n,
{
    if m == n {
        assert(files_of(defs.take(m)) =~= files_of(defs.take(n)) + Seq::<usize>::empty());
    } else {
        lemma_files_of_prefix(defs, n, m - 1);
        let extra = choose|extra: Seq<usize>| files_of(defs.take(m - 1)) == files_of(defs.take(n)) + extra;
        assert(defs.take(m).drop_last() =~= defs.take(m - 1));
        let r = files_of(defs.take(m - 1));
        let d = defs.take(m).last();
        if r.contains(d.file) {
            assert(files_of(defs.take(m)) == files_of(defs.take(n)) + extra);
        } else {
            assert(files_of(defs.take(m)) =~= files_of(defs.take(n)) + extra.push(d.file));
        }
    }
}

/// The joined outline's length is one less than the total part weight of the
/// files in map order (zero when nothing is shown).
proof fn lemma_assembled_len(files: Seq<FileData>, defs: Seq<RankedDef>, plan: Seq<((usize, usize), Vec<usize>)>)
    ensures
        assembled(files, defs, plan).len() == if sum_of(files_of(defs), file_weight(files, defs, plan)) == 0 {
            0
        } else {
            (sum_of(files_of(defs), file_weight(files, defs, plan)) - 1) as nat
        },
{
    let w = file_weight(files, defs, plan);
    let order = file_order(files, defs);
    let render = |f: usize| rendered_file(files[f as int].rel@, files[f as int].source@, file_lines(defs, plan, f));
    let xs = order.map_values(render);
    let pw = |x: Seq<char>| part_weight(x);
    lemma_join_nonempty_len(xs);
    lemma_sum_map(order, render, pw, w);
    let le = |a: FileKey, b: FileKey| file_key_le(a, b);
    let keys = file_keys(files, defs);
    let sorted = sort_le(keys, le);
    let first = |k: FileKey| k.0;
    let wk = |k: FileKey| w(k.0);
    lemma_sum_map(sorted, first, w, wk);
    lemma_sum_sort_le(keys, le, wk);
    let key_of = |f: usize| (f, best_rank(defs, f).unwrap(), files[f as int].rel@);
    lemma_sum_map(files_of(defs), key_of, wk, w);
}

/// The outline of a longer prefix of the ranked definitions is never
/// shorter than that of a shorter prefix.
pub proof fn assembled_grows(files: Seq<FileData>, defs: Seq<RankedDef>, plan: Seq<((usize, usize), Vec<usize>)>, n: int, m: int)
    requires
        0 <= n <= m <= defs.len(),
    ensures
        assembled(files, defs.take(n), plan).len() <= assembled(files, defs.take(m), plan).len(),
{
    let dn = defs.take(n);
    let dm = defs.take(m);
    let wn = file_weight(files, dn, plan);
    let wm = file_weight(files, dm, plan);
    lemma_assembled_len(files, dn, plan);
    lemma_assembled_len(files, dm, plan);
    assert forall|f: usize| #[trigger] wn(f) <= wm(f) by {
        lemma_file_lines(dn, plan, f);
        lemma_file_lines(dm, plan, f);
        assert forall|y: usize| file_lines(dn, plan, f).contains(y) implies file_lines(dm, plan, f).contains(y) by {
            lemma_file_shows_prefix(defs, plan, f, y, n, m);
        }
        rendered_file_grows_with_lines(
            files[f as int].rel@,
            files[f as int].source@,
            file_lines(dn, plan, f),
            file_lines(dm, plan, f),
        );
    }
    lemma_sum_le(files_of(dn), wn, wm);
    lemma_files_of_prefix(defs, n, m);
    let extra = choose|extra: Seq<usize>| files_of(dm) == files_of(dn) + extra;
    lemma_sum_append(files_of(dn), extra, wm);
}

/// Fitting the budget is monotone: whenever a prefix of the ranking fits,
/// every shorter (non-empty) prefix fits too.
pub proof fn fits_is_monotone(files: Seq<FileData>, defs: Seq<RankedDef>, plan: Seq<((usize, usize), Vec<usize>)>, tokens: usize)
    ensures
        fits_monotone(files, defs, plan, tokens),
{
    assert forall|a: int, b: int|
        1 <= b <= a <= defs.len() && #[trigger] fits(files, defs, plan, tokens, a) implies #[trigger] fits(
            files,
            defs,
            plan,
            tokens,
            b,
        ) by {
        assembled_grows(files, defs, plan, b, a);
        token_estimate_monotone(assembled(files, defs.take(b), plan).len(), assembled(files, defs.take(a), plan).len());
    }
}

/// Binary-search the number of (ranked) definitions whose outline fits the
/// token budget, and render that outline.  When even one definition does not
/// fit (or the fitting outline is empty), the outline of the single best
/// definition is returned anyway.
pub fn fit_to_budget(idx: &Index, defs: &Vec<RankedDef>, plan: &Vec<((usize, usize), Vec<usize>)>, tokens: usize) -> (r: String)
    requires
        defs_in_range(idx.files@, defs@),
        defs@.len() < usize::MAX,
    ensures
        defs@.len() == 0 ==> r@ == Seq::<char>::empty(),
        defs@.len() > 0 ==> token_estimate(r@.len()) <= tokens || r@ == assembled(idx.files@, defs@.take(1), plan@),
        defs@.len() > 0 ==> exists|n: int|
            1 <= n <= defs@.len() && r@ == #[trigger] assembled(idx.files@, defs@.take(n), plan@) && (fits(
                idx.files@,
                defs@,
                plan@,
                tokens,
                n,
            ) || n == 1),
        defs@.len() > 0 ==> {
            &&& (!fits(idx.files@, defs@, plan@, tokens, 1) ==> r@ == assembled(idx.files@, defs@.take(1), plan@))
            &&& forall|m: int|
                1 <= m <= defs@.len() && #[trigger] fits(idx.files@, defs@, plan@, tokens, m) && (m == defs@.len()
                    || !fits(idx.files@, defs@, plan@, tokens, m + 1)) && assembled(idx.files@, defs@.take(m), plan@).len()
                    > 0 ==> r@ == assembled(idx.files@, defs@.take(m), plan@)
        },
{
    let ghost files = idx.files@;
    let ghost ds = defs@;
    let ghost pl = plan@;
    proof {
        fits_is_monotone(files, ds, pl, tokens);
    }
    let len = defs.len();
    if len == 0 {
        return String::new();
    }
    let mut lo: usize = 0;
    let mut hi: usize = len;
    let mut best = String::new();
    let ghost mut found: Option<int> = None;
    while lo <= hi
        invariant
            len == ds.len() > 0,
            len < usize::MAX,
            ds == defs@,
            files == idx.files@,
            pl == plan@,
            defs_in_range(files, ds),
            fits_monotone(files, ds, pl, tokens),
            lo <= hi + 1 <= len + 1,
            found matches Some(m) ==> best@ == assembled(files, ds.take(m), pl) && fits(files, ds, pl, tokens, m)
                && m == lo - 1 && 1 <= m,
            found is None ==> best@ == Seq::<char>::empty() && lo <= 1,
            forall|n: int| 1 <= n < lo ==> #[trigger] fits(files, ds, pl, tokens, n),
            forall|n: int| hi < n <= len ==> !#[trigger] fits(files, ds, pl, tokens, n),
        decreases hi + 1 - lo,
    {
        let mid: usize = lo + (hi - lo) / 2;
        if mid == 0 {
            lo = 1;
            proof {
                assert forall|n: int| 1 <= n < lo implies #[trigger] fits(files, ds, pl, tokens, n) by {
                    assert(false);
                }
            }
        } else {
            let out = assemble_map(idx, defs, mid, plan);
            if approx_tokens(out.as_str()) <= tokens {
                best = out;
                proof {
                    found = Some(mid as int);
                    assert forall|n: int| 1 <= n < mid + 1 implies #[trigger] fits(files, ds, pl, tokens, n) by {
                        if n < mid {
                            assert(fits(files, ds, pl, tokens, mid as int));
                        }
                    }
                }
                lo = mid + 1;
            } else {
                proof {
                    assert forall|n: int| mid - 1 < n <= len implies !#[trigger] fits(files, ds, pl, tokens, n) by {
                        if n > mid && fits(files, ds, pl, tokens, n) {
                            assert(fits(files, ds, pl, tokens, mid as int));
                        }
                    }
                }
                hi = mid - 1;
            }
        }
    }
    if best.as_str().is_empty() {
        let one = assemble_map(idx, defs, 1, plan);
        proof {
            if found is Some {
                let m = found->0;
                assert forall|k: int|
                    1 <= k <= ds.len() && #[trigger] fits(files, ds, pl, tokens, k) && (k == ds.len() || !fits(files, ds, pl, tokens, k + 1))
                    && assembled(files, ds.take(k), pl).len() > 0 implies one@ == assembled(files, ds.take(k), pl) by {
                    if k < m {
                        assert(fits(files, ds, pl, tokens, k + 1));
                    } else if k > m {
                        assert(!fits(files, ds, pl, tokens, k));
                    }
                }
            }
            if found is None {
                assert forall|k: int|
                    1 <= k <= ds.len() && #[trigger] fits(files, ds, pl, tokens, k) && (k == ds.len() || !fits(files, ds, pl, tokens, k + 1))
                    && assembled(files, ds.take(k), pl).len() > 0 implies one@ == assembled(files, ds.take(k), pl) by {
                    assert(!fits(files, ds, pl, tokens, k));
                }
            }
        }
        one
    } else {
        proof {
            let m = found->0;
            assert(fits(files, ds, pl, tokens, 1));
            assert forall|k: int|
                1 <= k <= ds.len() && #[trigger] fits(files, ds, pl, tokens, k) && (k == ds.len() || !fits(files, ds, pl, tokens, k + 1))
                && assembled(files, ds.take(k), pl).len() > 0 implies best@ == assembled(files, ds.take(k), pl) by {
                if k < m {
                    assert(fits(files, ds, pl, tokens, k + 1));
                } else if k > m {
                    assert(!fits(files, ds, pl, tokens, k));
                }
            }
        }
        best
    }
}

/// The position of the file whose relative path is `rel` (backslashes read as `/`).
pub fn file_index(idx: &Index, rel: &str) -> (r: Option<usize>)
    ensures
        match r {
            Some(i) => i < idx.files@.len() && idx.files@[i as int].rel@ == forward_slashes(rel@) && forall|j: int|
                0 <= j < i ==> idx.files@[j].rel@ != forward_slashes(rel@),
            None => forall|j: int| 0 <= j < idx.files@.len() ==> idx.files@[j].rel@ != forward_slashes(rel@),
        },
{
    let want = crate::walk::forward_slashes_chars(&chars_of(rel));
    let mut i: usize = 0;
    while i < idx.files.len()
        invariant
            i <= idx.files@.len(),
            want@ == forward_slashes(rel@),
            forall|j: int| 0 <= j < i ==> idx.files@[j].rel@ != forward_slashes(rel@),
        decreases idx.files@.len() - i,
    {
        if chars_eq(&chars_of(idx.files[i].rel.as_str()), &want) {
            return Some(i);
        }
        i = i + 1;
    }
    None
}

// ---------------------------------------------------------------------------
// Display-line plan
// ---------------------------------------------------------------------------

/// Every selected definition names a tag of an indexed file.
pub open spec fn tags_in_range(files: Seq<FileData>, defs: Seq<RankedDef>) -> bool {
    forall|k: int|
        0 <= k < defs.len() ==> (#[trigger] defs[k]).file < files.len() && defs[k].tag < files[defs[k].file as int].tags@.len()
}

/// Tag positions of the selected definitions of file `f`, in selection order.
pub open spec fn file_def_tags(defs: Seq<RankedDef>, f: usize) -> Seq<usize>
    decreases defs.len(),
{
    if defs.len() == 0 {
        seq![]
    } else {
        let r = file_def_tags(defs.drop_last(), f);
        if defs.last().file == f {
            r.push(defs.last().tag)
        } else {
            r
        }
    }
}

/// Position of the first `x` in `s` (`s.len()` if there is none).
pub open spec fn first_pos(s: Seq<usize>, x: usize) -> int
    decreases s.len(),
{
    if s.len() == 0 {
        0
    } else if s[0] == x {
        0
    } else {
        1 + first_pos(s.drop_first(), x)
    }
}

/// `ls` are the display lines of tag `t` of file `f` when the selected
/// definitions of `f` are planned together (see `plan_lines`).
pub open spec fn planned_for(files: Seq<FileData>, defs: Seq<RankedDef>, f: usize, t: usize, ls: Seq<usize>) -> bool {
    let file = files[f as int];
    let tags = file_def_tags(defs, f);
    let bytes = tags.map_values(|x: usize| file.tags@[x as int].start_byte);
    let tag = file.tags@[t as int];
    match language_of_path(file.path@) {
        None => false,
        Some(id) => match ancestor_chains(id, file.source@, bytes) {
            None => ls == seq![tag.line],
            Some(ch) => is_line_plan(ls, tag@, ch[first_pos(tags, t)]),
        },
    }
}

proof fn lemma_first_pos(s: Seq<usize>, x: usize)
    requires
        s.contains(x),
    ensures
        0 <= first_pos(s, x) < s.len(),
        s[first_pos(s, x)] == x,
        forall|q: int| 0 <= q < first_pos(s, x) ==> s[q] != x,
    decreases s.len(),
{
    if s[0] != x {
        let k = choose|k: int| 0 <= k < s.len() && s[k] == x;
        assert(s.drop_first()[k - 1] == x);
        lemma_first_pos(s.drop_first(), x);
        assert forall|q: int| 0 <= q < first_pos(s, x) implies s[q] != x by {
            if q > 0 {
                assert(s[q] == s.drop_first()[q - 1]);
            }
        }
    }
}

proof fn lemma_plan_lookup_at(a: Seq<((usize, usize), Vec<usize>)>, key: (usize, usize), j: int)
    requires
        0 <= j < a.len(),
        a[j].0 == key,
        forall|q: int| 0 <= q < j ==> a[q].0 != key,
    ensures
        plan_lookup(a, key) == Some(a[j].1@),
    decreases a.len(),
{
    if j > 0 {
        let t = a.drop_first();
        assert forall|q: int| 0 <= q < j - 1 implies t[q].0 != key by {
            assert(t[q] == a[q + 1]);
        }
        lemma_plan_lookup_at(t, key, j - 1);
    }
}

proof fn lemma_plan_lookup_none(a: Seq<((usize, usize), Vec<usize>)>, key: (usize, usize))
    requires
        forall|q: int| 0 <= q < a.len() ==> a[q].0 != key,
    ensures
        plan_lookup(a, key) is None,
    decreases a.len(),
{
    if a.len() > 0 {
        let t = a.drop_first();
        assert forall|q: int| 0 <= q < t.len() implies t[q].0 != key by {
            assert(t[q] == a[q + 1]);
        }
        lemma_plan_lookup_none(t, key);
    }
}

proof fn lemma_plan_lookup_append(a: Seq<((usize, usize), Vec<usize>)>, b: Seq<((usize, usize), Vec<usize>)>, key: (usize, usize))
    ensures
        plan_lookup(a + b, key) == (if plan_lookup(a, key) is Some { plan_lookup(a, key) } else { plan_lookup(b, key) }),
    decreases a.len(),
{
    if a.len() == 0 {
        assert(a + b =~= b);
    } else {
        assert((a + b)[0] == a[0]);
        assert((a + b).drop_first() =~= a.drop_first() + b);
        lemma_plan_lookup_append(a.drop_first(), b, key);
    }
}

proof fn lemma_file_def_tags_step(defs: Seq<RankedDef>, k: int, f: usize)
    requires
        0 <= k < defs.len(),
    ensures
        file_def_tags(defs.take(k + 1), f) == if defs[k].file == f {
            file_def_tags(defs.take(k), f).push(defs[k].tag)
        } else {
            file_def_tags(defs.take(k), f)
        },
{
    assert(defs.take(k + 1).drop_last() =~= defs.take(k));
    assert(defs.take(k + 1).last() == defs[k]);
}

proof fn lemma_file_def_tags_contains(defs: Seq<RankedDef>, k: int)
    requires
        0 <= k < defs.len(),
    ensures
        file_def_tags(defs, defs[k].file).contains(defs[k].tag),
    decreases defs.len(),
{
    let f = defs[k].file;
    if k < defs.len() - 1 {
        lemma_file_def_tags_contains(defs.drop_last(), k);
        let r = file_def_tags(defs.drop_last(), f);
        let q = choose|q: int| 0 <= q < r.len() && r[q] == defs[k].tag;
        if defs.last().file == f {
            assert(r.push(defs.last().tag)[q] == defs[k].tag);
        }
    } else {
        let r = file_def_tags(defs.drop_last(), f);
        assert(r.push(defs.last().tag)[r.len() as int] == defs[k].tag);
    }
}

/// The plan entries of one file: its selected definitions planned together.
fn plan_file(idx: &Index, defs: &Vec<RankedDef>, f: usize, queries: &TagQueries) -> (r: Vec<((usize, usize), Vec<usize>)>)
    requires
        tags_in_range(idx.files@, defs@),
        f < idx.files@.len(),
        has_all_queries(queries.files@),
    ensures
        forall|k: int| 0 <= k < r@.len() ==> (#[trigger] r@[k]).0.0 == f && file_def_tags(defs@, f).contains(r@[k].0.1),
        language_of_path(idx.files@[f as int].path@) is None ==> r@.len() == 0,
        language_of_path(idx.files@[f as int].path@) is Some ==> forall|t: usize|
            #[trigger] file_def_tags(defs@, f).contains(t) ==> (plan_lookup(r@, (f, t)) matches Some(ls) && planned_for(
                idx.files@,
                defs@,
                f,
                t,
                ls,
            )),
{
    let file = &idx.files[f];
    let ghost ftags = file.tags@;
    let mut list: Vec<(usize, &Tag)> = Vec::new();
    let mut k: usize = 0;
    while k < defs.len()
        invariant
            k <= defs@.len(),
            tags_in_range(idx.files@, defs@),
            f < idx.files@.len(),
            file == &idx.files@[f as int],
            ftags == file.tags@,
            list@.map_values(|e: (usize, &Tag)| e.0) == file_def_tags(defs@.take(k as int), f),
            forall|q: int| 0 <= q < list@.len() ==> (#[trigger] list@[q]).0 < ftags.len() && *list@[q].1 == ftags[list@[q].0 as int],
        decreases defs@.len() - k,
    {
        proof {
            lemma_file_def_tags_step(defs@, k as int, f);
        }
        let d = defs[k];
        if d.file == f {
            assert(defs@[k as int].file < idx.files@.len() && defs@[k as int].tag < idx.files@[defs@[k as int].file as int].tags@.len());
            let ghost before = list@;
            list.push((d.tag, &file.tags[d.tag]));
            assert(list@.map_values(|e: (usize, &Tag)| e.0) =~= before.map_values(|e: (usize, &Tag)| e.0).push(d.tag));
        }
        k = k + 1;
    }
    assert(defs@.take(defs@.len() as int) =~= defs@);
    let ghost tags = file_def_tags(defs@, f);
    assert(def_bytes(list@) =~= tags.map_values(|x: usize| ftags[x as int].start_byte)) by {
        assert forall|q: int| 0 <= q < list@.len() implies def_bytes(list@)[q] == tags.map_values(|x: usize| ftags[x as int].start_byte)[q] by {
            assert(list@.map_values(|e: (usize, &Tag)| e.0)[q] == list@[q].0);
        }
    }
    match detect(file.path.as_str(), queries) {
        None => Vec::new(),
        Some(lang) => {
            let pl = plan_lines(&lang, file.source.as_str(), &list);
            let mut out: Vec<((usize, usize), Vec<usize>)> = Vec::new();
            let mut j: usize = 0;
            while j < pl.len()
                invariant
                    j <= pl@.len(),
                    pl@.len() == list@.len(),
                    forall|q: int| 0 <= q < pl@.len() ==> (#[trigger] pl@[q]).0 == list@[q].0,
                    out@.len() == j,
                    forall|q: int| 0 <= q < j ==> (#[trigger] out@[q]).0 == (f, list@[q].0) && out@[q].1@ == pl@[q].1@,
                decreases pl@.len() - j,
            {
                let lines = pl[j].1.clone();
                assert(lines@ =~= pl@[j as int].1@);
                out.push(((f, pl[j].0), lines));
                j = j + 1;
            }
            proof {
                assert forall|q: int| 0 <= q < out@.len() implies (#[trigger] out@[q]).0.0 == f && tags.contains(out@[q].0.1) by {
                    assert(list@.map_values(|e: (usize, &Tag)| e.0)[q] == list@[q].0);
                    assert(tags[q] == out@[q].0.1);
                }
                assert forall|t: usize| #[trigger] tags.contains(t) implies (plan_lookup(out@, (f, t)) matches Some(ls) && planned_for(
                    idx.files@,
                    defs@,
                    f,
                    t,
                    ls,
                )) by {
                    lemma_first_pos(tags, t);
                    let jj = first_pos(tags, t);
                    assert(list@.map_values(|e: (usize, &Tag)| e.0)[jj] == list@[jj].0);
                    assert forall|q: int| 0 <= q < jj implies out@[q].0 != (f, t) by {
                        assert(list@.map_values(|e: (usize, &Tag)| e.0)[q] == list@[q].0);
                    }
                    lemma_plan_lookup_at(out@, (f, t), jj);
                }
            }
            out
        },
    }
}

/// Display lines for every selected definition whose file has a supported
/// language, keyed by (file, tag): the definitions of each file are planned
/// together with `plan_lines`.
pub fn build_plan(idx: &Index, defs: &Vec<RankedDef>, queries: &TagQueries) -> (r: Vec<((usize, usize), Vec<usize>)>)
    requires
        tags_in_range(idx.files@, defs@),
        has_all_queries(queries.files@),
    ensures
        plan_covers(idx.files@, defs@, r@),
        forall|k: int| 0 <= k < r@.len() ==> selected_key(defs@, (#[trigger] r@[k]).0),
{
    // files of the definitions, in order of first appearance
    let mut fs: Vec<usize> = Vec::new();
    let mut k: usize = 0;
    while k < defs.len()
        invariant
            k <= defs@.len(),
            tags_in_range(idx.files@, defs@),
            forall|a: int, b: int| 0 <= a < b < fs@.len() ==> fs@[a] != fs@[b],
            forall|q: int| 0 <= q < fs@.len() ==> (#[trigger] fs@[q]) < idx.files@.len(),
            forall|q: int| 0 <= q < k ==> fs@.contains((#[trigger] defs@[q]).file),
        decreases defs@.len() - k,
    {
        let f = defs[k].file;
        if find_pos(&fs, f).is_none() {
            let ghost before = fs@;
            fs.push(f);
            assert forall|q: int| 0 <= q < k + 1 implies fs@.contains((#[trigger] defs@[q]).file) by {
                if q < k {
                    let p = choose|p: int| 0 <= p < before.len() && before[p] == defs@[q].file;
                    assert(fs@[p] == defs@[q].file);
                } else {
                    assert(fs@[before.len() as int] == f);
                }
            }
        }
        k = k + 1;
    }
    let mut out: Vec<((usize, usize), Vec<usize>)> = Vec::new();
    let mut i: usize = 0;
    while i < fs.len()
        invariant
            i <= fs@.len(),
            tags_in_range(idx.files@, defs@),
            has_all_queries(queries.files@),
            forall|a: int, b: int| 0 <= a < b < fs@.len() ==> fs@[a] != fs@[b],
            forall|q: int| 0 <= q < fs@.len() ==> (#[trigger] fs@[q]) < idx.files@.len(),
            forall|q: int| 0 <= q < defs@.len() ==> fs@.contains((#[trigger] defs@[q]).file),
            forall|q: int| 0 <= q < out@.len() ==> fs@.take(i as int).contains((#[trigger] out@[q]).0.0)
                && file_def_tags(defs@, out@[q].0.0).contains(out@[q].0.1),
            forall|q: int|
                0 <= q < defs@.len() && fs@.take(i as int).contains((#[trigger] defs@[q]).file) ==> match plan_lookup(
                    out@,
                    (defs@[q].file, defs@[q].tag),
                ) {
                    None => language_of_path(idx.files@[defs@[q].file as int].path@) is None,
                    Some(ls) => planned_for(idx.files@, defs@, defs@[q].file, defs@[q].tag, ls),
                },
        decreases fs@.len() - i,
    {
        let f = fs[i];
        let mut part = plan_file(idx, defs, f, queries);
        let ghost before = out@;
        let ghost pv = part@;
        out.append(&mut part);
        proof {
            let ft = fs@.take(i as int);
            let ft1 = fs@.take(i + 1);
            assert(ft1 =~= ft.push(f));
            assert(!ft.contains(f)) by {
                if ft.contains(f) {
                    let p = choose|p: int| 0 <= p < ft.len() && ft[p] == f;
                    assert(fs@[p] == fs@[i as int]);
                }
            }
            assert forall|q: int| 0 <= q < out@.len() implies ft1.contains((#[trigger] out@[q]).0.0)
                && file_def_tags(defs@, out@[q].0.0).contains(out@[q].0.1) by {
                if q < before.len() {
                    assert(out@[q] == before[q]);
                    let p = choose|p: int| 0 <= p < ft.len() && ft[p] == before[q].0.0;
                    assert(ft1[p] == before[q].0.0);
                } else {
                    assert(out@[q] == pv[q - before.len()]);
                    assert(ft1[i as int] == f);
                }
            }
            assert forall|q: int|
                0 <= q < defs@.len() && ft1.contains((#[trigger] defs@[q]).file) implies match plan_lookup(
                    out@,
                    (defs@[q].file, defs@[q].tag),
                ) {
                    None => language_of_path(idx.files@[defs@[q].file as int].path@) is None,
                    Some(ls) => planned_for(idx.files@, defs@, defs@[q].file, defs@[q].tag, ls),
                } by {
                let key = (defs@[q].file, defs@[q].tag);
                lemma_plan_lookup_append(before, pv, key);
                assert(out@ == before + pv);
                if ft.contains(defs@[q].file) {
                    assert(defs@[q].file != f);
                    assert forall|m: int| 0 <= m < pv.len() implies pv[m].0 != key by {
                        assert(pv[m].0.0 == f);
                    }
                    lemma_plan_lookup_none(pv, key);
                } else {
                    let p = choose|p: int| 0 <= p < ft1.len() && ft1[p] == defs@[q].file;
                    assert(p == i);
                    assert(defs@[q].file == f);
                    assert forall|m: int| 0 <= m < before.len() implies before[m].0 != key by {
                        assert(ft.contains(before[m].0.0));
                    }
                    lemma_plan_lookup_none(before, key);
                    lemma_file_def_tags_contains(defs@, q);
                    assert(file_def_tags(defs@, f).contains(defs@[q].tag));
                    if language_of_path(idx.files@[f as int].path@) is None {
                        assert(pv.len() == 0);
                    }
                }
            }
        }
        i = i + 1;
    }
    proof {
        assert(fs@.take(fs@.len() as int) =~= fs@);
        assert forall|k: int| 0 <= k < out@.len() implies selected_key(defs@, (#[trigger] out@[k]).0) by {
            lemma_file_def_tags_origin(defs@, out@[k].0.0, out@[k].0.1);
            assert(out@[k].0 == (out@[k].0.0, out@[k].0.1));
        }
    }
    out
}

/// `key` is the (file, tag) of one of the selected definitions.
pub open spec fn selected_key(defs: Seq<RankedDef>, key: (usize, usize)) -> bool {
    exists|q: int| 0 <= q < defs.len() && key == (#[trigger] defs[q].file, defs[q].tag)
}

proof fn lemma_file_def_tags_origin(defs: Seq<RankedDef>, f: usize, t: usize)
    requires
        file_def_tags(defs, f).contains(t),
    ensures
        selected_key(defs, (f, t)),
    decreases defs.len(),
{
    let r = file_def_tags(defs.drop_last(), f);
    if r.contains(t) {
        lemma_file_def_tags_origin(defs.drop_last(), f, t);
        let q = choose|q: int| 0 <= q < defs.drop_last().len() && (f, t) == (defs.drop_last()[q].file, defs.drop_last()[q].tag);
        assert(defs[q] == defs.drop_last()[q]);
    } else {
        let n = defs.len() - 1;
        if defs.last().file != f {
            assert(false);
        }
        let p = choose|p: int| 0 <= p < r.push(defs.last().tag).len() && r.push(defs.last().tag)[p] == t;
        if p < r.len() {
            assert(r[p] == t);
        }
        assert((f, t) == (defs[n].file, defs[n].tag));
    }
}

// ---------------------------------------------------------------------------
// Files in focus
// ---------------------------------------------------------------------------

/// Position of the first file whose relative path is `want`.
pub open spec fn position_of_rel(files: Seq<FileData>, want: Seq<char>) -> Option<usize>
    decreases files.len(),
{
    if files.len() == 0 {
        None
    } else {
        match position_of_rel(files.drop_last(), want) {
            Some(i) => Some(i),
            None => if files.last().rel@ == want {
                Some((files.len() - 1) as usize)
            } else {
                None
            },
        }
    }
}

proof fn lemma_position_of_rel(files: Seq<FileData>, want: Seq<char>)
    requires
        files.len() <= usize::MAX,
    ensures
        match position_of_rel(files, want) {
            Some(i) => i < files.len() && files[i as int].rel@ == want && forall|j: int|
                0 <= j < i ==> files[j].rel@ != want,
            None => forall|j: int| 0 <= j < files.len() ==> files[j].rel@ != want,
        },
    decreases files.len(),
{
    if files.len() > 0 {
        let u = files.drop_last();
        lemma_position_of_rel(u, want);
        assert forall|j: int| 0 <= j < u.len() implies u[j] == files[j] by {}
    }
}

/// The files in focus: the position of the file named by each of `names`
/// (backslashes read as `/` when `normalize`), each once, in order of first
/// mention; names of no indexed file are skipped.
pub open spec fn focus_files_of(files: Seq<FileData>, names: Seq<Seq<char>>, normalize: bool) -> Seq<usize>
    decreases names.len(),
{
    if names.len() == 0 {
        seq![]
    } else {
        let r = focus_files_of(files, names.drop_last(), normalize);
        let want = if normalize { forward_slashes(names.last()) } else { names.last() };
        match position_of_rel(files, want) {
            Some(i) => if r.contains(i) { r } else { r.push(i) },
            None => r,
        }
    }
}

/// The positions of the files named by `names` (see `focus_files_of`).
pub fn focus_files(idx: &Index, names: &Vec<String>, normalize: bool) -> (r: Vec<usize>)
    ensures
        r@ == focus_files_of(idx.files@, names@.map_values(|n: String| n@), normalize),
{
    let ghost nv = names@.map_values(|n: String| n@);
    proof {
        assert(idx.files.len() == idx.files@.len());
    }
    let mut r: Vec<usize> = Vec::new();
    let mut k: usize = 0;
    while k < names.len()
        invariant
            k <= names@.len(),
            nv == names@.map_values(|n: String| n@),
            idx.files@.len() <= usize::MAX,
            r@ == focus_files_of(idx.files@, nv.take(k as int), normalize),
        decreases names@.len() - k,
    {
        proof {
            assert(nv.take(k + 1).drop_last() =~= nv.take(k as int));
            assert(nv.take(k + 1).last() == names@[k as int]@);
        }
        let found = if normalize {
            file_index(idx, names[k].as_str())
        } else {
            exact_file_index(idx, names[k].as_str())
        };
        proof {
            let want = if normalize { forward_slashes(names@[k as int]@) } else { names@[k as int]@ };
            lemma_position_of_rel(idx.files@, want);
            if let Some(i) = found {
                if let Some(p) = position_of_rel(idx.files@, want) {
                    assert(p == i);
                }
            }
        }
        match found {
            Some(i) => {
                if find_pos(&r, i).is_none() {
                    r.push(i);
                }
            },
            None => {},
        }
        k = k + 1;
    }
    assert(nv.take(names@.len() as int) =~= nv);
    r
}

/// The position of the first file whose relative path is exactly `rel`.
pub fn exact_file_index(idx: &Index, rel: &str) -> (r: Option<usize>)
    ensures
        match r {
            Some(i) => i < idx.files@.len() && idx.files@[i as int].rel@ == rel@ && forall|j: int|
                0 <= j < i ==> idx.files@[j].rel@ != rel@,
            None => forall|j: int| 0 <= j < idx.files@.len() ==> idx.files@[j].rel@ != rel@,
        },
{
    let want = chars_of(rel);
    let mut i: usize = 0;
    while i < idx.files.len()
        invariant
            i <= idx.files@.len(),
            want@ == rel@,
            forall|j: int| 0 <= j < i ==> idx.files@[j].rel@ != rel@,
        decreases idx.files@.len() - i,
    {
        if chars_eq(&chars_of(idx.files[i].rel.as_str()), &want) {
            return Some(i);
        }
        i = i + 1;
    }
    None
}

/// What `build_plan` promises of a plan: each selected definition of a file
/// with a supported language has its planned lines, and no other has lines.
pub open spec fn plan_covers(files: Seq<FileData>, defs: Seq<RankedDef>, plan: Seq<((usize, usize), Vec<usize>)>) -> bool {
    forall|k: int|
        0 <= k < defs.len() ==> match plan_lookup(plan, ((#[trigger] defs[k]).file, defs[k].tag)) {
            None => language_of_path(files[defs[k].file as int].path@) is None,
            Some(ls) => planned_for(files, defs, defs[k].file, defs[k].tag, ls),
        }
}

/// Every selected definition of a file with a supported language has its
/// name line among the lines its file shows in the map of any prefix of the
/// ranking that includes it.
pub proof fn selected_definitions_show_their_line(
    files: Seq<FileData>,
    defs: Seq<RankedDef>,
    plan: Seq<((usize, usize), Vec<usize>)>,
    n: int,
    k: int,
)
    requires
        0 <= k < n <= defs.len(),
        plan_covers(files, defs, plan),
        language_of_path(files[defs[k].file as int].path@) is Some,
    ensures
        file_lines(defs.take(n), plan, defs[k].file).contains(files[defs[k].file as int].tags@[defs[k].tag as int].line),
{
    let d = defs[k];
    let f = d.file;
    let line = files[f as int].tags@[d.tag as int].line;
    let ls = plan_lookup(plan, (f, d.tag)).unwrap();
    assert(planned_for(files, defs, f, d.tag, ls));
    assert(ls.contains(line)) by {
        let tags = file_def_tags(defs, f);
        let bytes = tags.map_values(|x: usize| files[f as int].tags@[x as int].start_byte);
        let id = language_of_path(files[f as int].path@).unwrap();
        match ancestor_chains(id, files[f as int].source@, bytes) {
            None => {
                assert(ls[0] == line);
            },
            Some(ch) => {
                assert(crate::render::shows_line(files[f as int].tags@[d.tag as int]@, ch[first_pos(tags, d.tag)], line as int));
            },
        }
    }
    let dn = defs.take(n);
    assert(dn[k] == d);
    assert(file_shows(dn, plan, f, line));
    lemma_file_lines(dn, plan, f);
}

/// The files in focus are distinct indexed files.
pub proof fn focus_files_distinct(files: Seq<FileData>, names: Seq<Seq<char>>, normalize: bool)
    requires
        files.len() <= usize::MAX,
    ensures
        forall|a: int, b: int| 0 <= a < b < focus_files_of(files, names, normalize).len() ==> focus_files_of(files, names, normalize)[a]
            != focus_files_of(files, names, normalize)[b],
        forall|a: int| 0 <= a < focus_files_of(files, names, normalize).len() ==> #[trigger] focus_files_of(files, names, normalize)[a]
            < files.len(),
    decreases names.len(),
{
    if names.len() > 0 {
        focus_files_distinct(files, names.drop_last(), normalize);
        let r = focus_files_of(files, names.drop_last(), normalize);
        let want = if normalize { forward_slashes(names.last()) } else { names.last() };
        lemma_position_of_rel(files, want);
        if let Some(i) = position_of_rel(files, want) {
            if !r.contains(i) {
                let s2 = r.push(i);
                assert forall|a: int, b: int| 0 <= a < b < s2.len() implies s2[a] != s2[b] by {
                    if b == r.len() {
                        assert(s2[a] == r[a]);
                    } else {
                        assert(s2[a] == r[a] && s2[b] == r[b]);
                    }
                }
                assert forall|a: int| 0 <= a < s2.len() implies #[trigger] s2[a] < files.len() by {
                    if a < r.len() {
                        assert(s2[a] == r[a]);
                    }
                }
            }
        }
    }
}

} // verus!
