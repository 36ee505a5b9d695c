//! Paths as text: components, file names and display-relative paths.
//!
//! Paths are Unix paths: `/` is the only separator and a backslash is an
//! ordinary character (display paths still turn it into `/`).  A path's
//! components are: the root `/` if it is absolute, a leading `.` if it
//! starts with one, then every piece between separators that is neither
//! empty nor `.` (so `a//b/./c/` has the components `a`, `b`, `c`).

use vstd::prelude::*;
use crate::lang::{language_of, language_of_path};
use crate::order::{lemma_insert_le_at, lemma_sort_le_sorted, sort_le, sorted_le, total_preorder};
use crate::text::{
    all_lack, chars_eq, chars_of, join, join_chars, lacks, lemma_split_on_lacks, seqs_of, split_chars, split_on, string_of,
    lemma_text_le_antisymmetric, lemma_text_le_total, lemma_text_le_trans, text_le, text_le_exec,
};

verus! {

/// The normal pieces of a path (no empty pieces, no `.`).
pub open spec fn kept_pieces(pieces: Seq<Seq<char>>) -> Seq<Seq<char>>
    decreases pieces.len(),
{
    if pieces.len() == 0 {
        seq![]
    } else {
        let rest = kept_pieces(pieces.drop_last());
        let p = pieces.last();
        if p.len() == 0 || p == "."@ {
            rest
        } else {
            rest.push(p)
        }
    }
}

/// Components of a path (see the module documentation).
pub open spec fn components(path: Seq<char>) -> Seq<Seq<char>> {
    let pieces = split_on(path, '/');
    if path.len() > 0 && path[0] == '/' {
        seq!["/"@] + kept_pieces(pieces)
    } else if pieces[0] == "."@ {
        seq!["."@] + kept_pieces(pieces)
    } else {
        kept_pieces(pieces)
    }
}

/// The final component of a path when it names a file or directory (not the
/// root, a leading `.`, or `..`).
pub open spec fn file_name_of(path: Seq<char>) -> Option<Seq<char>> {
    let c = components(path);
    if c.len() == 0 {
        None
    } else {
        let last = c.last();
        if last == "/"@ || last == "."@ || last == ".."@ {
            None
        } else {
            Some(last)
        }
    }
}

fn kept_pieces_exec(pieces: &Vec<Vec<char>>) -> (r: Vec<Vec<char>>)
    ensures
        seqs_of(r@) == kept_pieces(seqs_of(pieces@)),
{
    let ghost pv = seqs_of(pieces@);
    let dot = chars_of(".");
    let mut r: Vec<Vec<char>> = Vec::new();
    let mut i: usize = 0;
    assert(pv.take(0) =~= Seq::<Seq<char>>::empty());
    assert(seqs_of(r@) =~= Seq::<Seq<char>>::empty());
    while i < pieces.len()
        invariant
            i <= pieces.len(),
            pv == seqs_of(pieces@),
            dot@ == "."@,
            seqs_of(r@) == kept_pieces(pv.take(i as int)),
        decreases pieces.len() - i,
    {
        assert(pv.take(i + 1).drop_last() =~= pv.take(i as int));
        assert(pv.take(i + 1).last() == pieces@[i as int]@);
        if pieces[i].len() > 0 && !chars_eq(&pieces[i], &dot) {
            let ghost before = r@;
            r.push(copy_chars(&pieces[i]));
            assert(seqs_of(r@) =~= seqs_of(before).push(pieces@[i as int]@));
        }
        i = i + 1;
    }
    assert(pv.take(pieces.len() as int) =~= pv);
    r
}

fn copy_chars(v: &Vec<char>) -> (r: Vec<char>)
    ensures
        r@ == v@,
{
    crate::text::slice_chars(v, 0, v.len())
}

/// Components of a path (see the module documentation).
pub fn components_of(path: &Vec<char>) -> (r: Vec<Vec<char>>)
    ensures
        seqs_of(r@) == components(path@),
{
    let pieces = split_chars(path, '/');
    let kept = kept_pieces_exec(&pieces);
    let dot = chars_of(".");
    proof {
        crate::text::lemma_split_on_nonempty(path@, '/');
    }
    if path.len() > 0 && path[0] == '/' {
        let mut r: Vec<Vec<char>> = Vec::new();
        r.push(chars_of("/"));
        let ghost one = seqs_of(r@);
        let mut kept = kept;
        let ghost kv = kept@;
        r.append(&mut kept);
        assert(seqs_of(r@) =~= one + seqs_of(kv));
        r
    } else if chars_eq(&pieces[0], &dot) {
        let mut r: Vec<Vec<char>> = Vec::new();
        r.push(dot);
        let ghost one = seqs_of(r@);
        let mut kept = kept;
        let ghost kv = kept@;
        r.append(&mut kept);
        assert(seqs_of(r@) =~= one + seqs_of(kv));
        r
    } else {
        kept
    }
}

/// The final component of `path` when it names a file or directory.
pub fn file_name(path: &str) -> (r: Option<String>)
    ensures
        crate::tags::opt_str_view(r) == file_name_of(path@),
{
    let pc = chars_of(path);
    let comps = components_of(&pc);
    if comps.len() == 0 {
        return None;
    }
    let last = &comps[comps.len() - 1];
    assert(last@ == components(path@).last());
    let root = chars_of("/");
    let dot = chars_of(".");
    let up = chars_of("..");
    if chars_eq(last, &root) || chars_eq(last, &dot) || chars_eq(last, &up) {
        None
    } else {
        Some(string_of(last))
    }
}


/// A piece between separators that names something (not empty, not `.`).
pub open spec fn kept_piece(p: Seq<char>) -> bool {
    p.len() > 0 && p != "."@
}

/// Length of the part of `path` before its body: 1 for a root `/` or a
/// leading `.` component, 0 otherwise.
pub open spec fn head_len(path: Seq<char>) -> int {
    if path.len() > 0 && path[0] == '/' {
        1
    } else if split_on(path, '/')[0] == "."@ {
        1
    } else {
        0
    }
}

/// The pieces between separators of the body of `path` (after its head).
pub open spec fn body_pieces(path: Seq<char>) -> Seq<Seq<char>> {
    split_on(path.skip(head_len(path)), '/')
}

/// The pieces that follow the first `j` kept pieces (each taken with the
/// separator after it).
pub open spec fn after_kept(pieces: Seq<Seq<char>>, j: nat) -> Seq<Seq<char>>
    decreases pieces.len(),
{
    if j == 0 || pieces.len() == 0 {
        pieces
    } else if kept_piece(pieces[0]) {
        after_kept(pieces.drop_first(), (j - 1) as nat)
    } else {
        after_kept(pieces.drop_first(), j)
    }
}

/// `pieces` without its leading pieces that are empty or `.`.
pub open spec fn trim_start_pieces(pieces: Seq<Seq<char>>) -> Seq<Seq<char>>
    decreases pieces.len(),
{
    if pieces.len() > 0 && !kept_piece(pieces[0]) {
        trim_start_pieces(pieces.drop_first())
    } else {
        pieces
    }
}

/// `pieces` without its trailing pieces that are empty or `.`.
pub open spec fn trim_end_pieces(pieces: Seq<Seq<char>>) -> Seq<Seq<char>>
    decreases pieces.len(),
{
    if pieces.len() > 0 && !kept_piece(pieces.last()) {
        trim_end_pieces(pieces.drop_last())
    } else {
        pieces
    }
}

/// The text of `path` after the components of `base`, when `base`'s
/// components are a prefix of `path`'s: the rest of `path` as written, from
/// just after the last matched component, with leading and trailing empty and
/// `.` pieces removed (only trailing ones when `base` has no components).
pub open spec fn rest_after(path: Seq<char>, base: Seq<char>) -> Option<Seq<char>> {
    let pc = components(path);
    let bc = components(base);
    if bc.len() <= pc.len() && pc.take(bc.len() as int) == bc {
        if bc.len() == 0 {
            Some(path.take(head_len(path)) + join(trim_end_pieces(body_pieces(path)), "/"@))
        } else {
            Some(
                join(
                    trim_end_pieces(trim_start_pieces(after_kept(body_pieces(path), (bc.len() - head_len(path)) as nat))),
                    "/"@,
                ),
            )
        }
    } else {
        None
    }
}

/// `s` with every backslash turned into a forward slash.
pub open spec fn forward_slashes(s: Seq<char>) -> Seq<char> {
    Seq::new(s.len(), |i: int| if s[i] == '\\' { '/' } else { s[i] })
}

/// Display path of `path` relative to `root` (see `rel`).
pub open spec fn rel_of(path: Seq<char>, root: Seq<char>) -> Seq<char> {
    let rest = match rest_after(path, root) {
        Some(r) => r,
        None => path,
    };
    let s = forward_slashes(rest);
    if s.len() == 0 {
        match file_name_of(path) {
            Some(n) => n,
            None => path,
        }
    } else {
        s
    }
}

proof fn lemma_kept_pieces_lack(pieces: Seq<Seq<char>>, d: char)
    requires
        all_lack(pieces, d),
    ensures
        all_lack(kept_pieces(pieces), d),
    decreases pieces.len(),
{
    if pieces.len() > 0 {
        let init = pieces.drop_last();
        assert forall|k: int| 0 <= k < init.len() implies lacks(#[trigger] init[k], d) by {
            assert(init[k] == pieces[k]);
        }
        lemma_kept_pieces_lack(init, d);
        let rest = kept_pieces(init);
        assert(lacks(pieces[pieces.len() - 1], d));
        let p = pieces.last();
        assert forall|k: int| 0 <= k < rest.push(p).len() implies lacks(#[trigger] rest.push(p)[k], d) by {
            if k < rest.len() {
                assert(rest.push(p)[k] == rest[k]);
            }
        }
    }
}

/// The components of a path that has no backslash have none either.
proof fn lemma_components_lack_backslash(path: Seq<char>)
    requires
        lacks(path, '\\'),
    ensures
        all_lack(components(path), '\\'),
{
    lemma_split_on_lacks(path, '/', '\\');
    let pieces = split_on(path, '/');
    lemma_kept_pieces_lack(pieces, '\\');
    let kept = kept_pieces(pieces);
    reveal_strlit("/");
    reveal_strlit(".");
    let head: Seq<char> = if path.len() > 0 && path[0] == '/' { "/"@ } else { "."@ };
    assert(lacks(head, '\\'));
    assert forall|k: int| 0 <= k < (seq![head] + kept).len() implies lacks(#[trigger] (seq![head] + kept)[k], '\\') by {
        if k > 0 {
            assert((seq![head] + kept)[k] == kept[k - 1]);
        }
    }
}

/// A display path never holds a backslash when the path it was made from
/// holds none.
pub proof fn rel_has_no_backslash(path: Seq<char>, root: Seq<char>)
    requires
        lacks(path, '\\'),
    ensures
        lacks(rel_of(path, root), '\\'),
{
    lemma_components_lack_backslash(path);
    let rest = match rest_after(path, root) {
        Some(r) => r,
        None => path,
    };
    let s = forward_slashes(rest);
    assert(lacks(s, '\\'));
    if s.len() == 0 {
        if let Some(n) = file_name_of(path) {
            let c = components(path);
            assert(n == c[c.len() - 1]);
        }
    }
}

pub(crate) fn forward_slashes_chars(s: &Vec<char>) -> (r: Vec<char>)
    ensures
        r@ == forward_slashes(s@),
{
    let mut r: Vec<char> = Vec::new();
    let mut i: usize = 0;
    while i < s.len()
        invariant
            i <= s.len(),
            r@ == forward_slashes(s@).take(i as int),
        decreases s.len() - i,
    {
        if s[i] == '\\' {
            r.push('/');
        } else {
            r.push(s[i]);
        }
        i = i + 1;
        assert(r@ =~= forward_slashes(s@).take(i as int));
    }
    assert(r@ =~= forward_slashes(s@));
    r
}

/// Whether `base`'s components are a prefix of `path`'s, and if so how many
/// there are.
fn matched_components(path: &Vec<char>, base: &Vec<char>) -> (r: Option<usize>)
    ensures
        match r {
            Some(k) => k == components(base@).len() && components(base@).len() <= components(path@).len()
                && components(path@).take(k as int) == components(base@),
            None => !(components(base@).len() <= components(path@).len() && components(path@).take(
                components(base@).len() as int,
            ) == components(base@)),
        },
{
    let pc = components_of(path);
    let bc = components_of(base);
    let ghost pv = seqs_of(pc@);
    let ghost bv = seqs_of(bc@);
    if bc.len() > pc.len() {
        return None;
    }
    let mut i: usize = 0;
    while i < bc.len()
        invariant
            i <= bc.len() <= pc.len(),
            pv == seqs_of(pc@),
            bv == seqs_of(bc@),
            pv == components(path@),
            bv == components(base@),
            forall|j: int| 0 <= j < i ==> pv[j] == bv[j],
        decreases bc.len() - i,
    {
        if !chars_eq(&pc[i], &bc[i]) {
            assert(pv.take(bv.len() as int)[i as int] != bv[i as int]);
            return None;
        }
        i = i + 1;
    }
    assert(pv.take(bv.len() as int) =~= bv);
    Some(bc.len())
}

fn is_kept_piece(p: &Vec<char>) -> (b: bool)
    ensures
        b == kept_piece(p@),
{
    p.len() > 0 && !chars_eq(p, &chars_of("."))
}

fn head_len_exec(path: &Vec<char>) -> (h: usize)
    ensures
        h == head_len(path@),
        h <= path@.len(),
{
    proof {
        lemma_head_len(path@);
    }
    if path.len() > 0 && path[0] == '/' {
        1
    } else {
        let pieces = split_chars(path, '/');
        proof {
            crate::text::lemma_split_on_nonempty(path@, '/');
        }
        assert(seqs_of(pieces@)[0] == pieces@[0]@);
        if chars_eq(&pieces[0], &chars_of(".")) {
            1
        } else {
            0
        }
    }
}

/// Position in `pieces` just after its first `j` kept pieces (or its end).
fn after_kept_exec(pieces: &Vec<Vec<char>>, j: usize) -> (m: usize)
    ensures
        m <= pieces@.len(),
        seqs_of(pieces@).skip(m as int) == after_kept(seqs_of(pieces@), j as nat),
{
    let ghost pv = seqs_of(pieces@);
    let mut i: usize = 0;
    let mut left: usize = j;
    assert(pv.skip(0) =~= pv);
    while left > 0 && i < pieces.len()
        invariant
            i <= pieces@.len(),
            pv == seqs_of(pieces@),
            after_kept(pv, j as nat) == after_kept(pv.skip(i as int), left as nat),
        decreases pieces@.len() - i,
    {
        assert(pv.skip(i as int)[0] == pieces@[i as int]@);
        assert(pv.skip(i as int).drop_first() =~= pv.skip(i + 1));
        if is_kept_piece(&pieces[i]) {
            left = left - 1;
        }
        i = i + 1;
    }
    i
}

/// Bounds `a <= b` such that `pieces[a..b]` are the pieces between `from`
/// and the end with leading (when `front`) and trailing empty and `.` pieces
/// removed.
fn trimmed_bounds(pieces: &Vec<Vec<char>>, from: usize, front: bool) -> (r: (usize, usize))
    requires
        from <= pieces@.len(),
    ensures
        from <= r.0 <= r.1 <= pieces@.len(),
        seqs_of(pieces@).subrange(r.0 as int, r.1 as int) == (if front {
            trim_end_pieces(trim_start_pieces(seqs_of(pieces@).skip(from as int)))
        } else {
            trim_end_pieces(seqs_of(pieces@).skip(from as int))
        }),
{
    let ghost pv = seqs_of(pieces@);
    let mut a: usize = from;
    if front {
        while a < pieces.len() && !is_kept_piece(&pieces[a])
            invariant
                from <= a <= pieces@.len(),
                pv == seqs_of(pieces@),
                trim_start_pieces(pv.skip(from as int)) == trim_start_pieces(pv.skip(a as int)),
            decreases pieces@.len() - a,
        {
            assert(pv.skip(a as int)[0] == pieces@[a as int]@);
            assert(pv.skip(a as int).drop_first() =~= pv.skip(a + 1));
            a = a + 1;
        }
        if a < pieces.len() {
            assert(pv.skip(a as int)[0] == pieces@[a as int]@);
        }
    }
    let ghost start: Seq<Seq<char>> = if front { trim_start_pieces(pv.skip(from as int)) } else { pv.skip(from as int) };
    assert(start =~= pv.subrange(a as int, pv.len() as int));
    let mut b: usize = pieces.len();
    while b > a && !is_kept_piece(&pieces[b - 1])
        invariant
            a <= b <= pieces@.len(),
            pv == seqs_of(pieces@),
            trim_end_pieces(start) == trim_end_pieces(pv.subrange(a as int, b as int)),
        decreases b,
    {
        assert(pv.subrange(a as int, b as int).last() == pieces@[b - 1]@);
        assert(pv.subrange(a as int, b as int).drop_last() =~= pv.subrange(a as int, b - 1));
        b = b - 1;
    }
    if b > a {
        assert(pv.subrange(a as int, b as int).last() == pieces@[b - 1]@);
    }
    (a, b)
}

/// The pieces `pieces[a..b]` joined with `/`.
fn join_range(pieces: &Vec<Vec<char>>, a: usize, b: usize) -> (r: Vec<char>)
    requires
        a <= b <= pieces@.len(),
    ensures
        r@ == join(seqs_of(pieces@).subrange(a as int, b as int), "/"@),
{
    let mut part: Vec<Vec<char>> = Vec::new();
    let mut k: usize = a;
    while k < b
        invariant
            a <= k <= b <= pieces@.len(),
            seqs_of(part@) == seqs_of(pieces@).subrange(a as int, k as int),
        decreases b - k,
    {
        let ghost before = part@;
        part.push(copy_chars(&pieces[k]));
        assert(seqs_of(part@) =~= seqs_of(before).push(pieces@[k as int]@));
        assert(seqs_of(pieces@).subrange(a as int, k + 1) =~= seqs_of(pieces@).subrange(a as int, k as int).push(
            pieces@[k as int]@,
        ));
        k = k + 1;
    }
    join_chars(&part, &chars_of("/"))
}

/// The text of `path` after its first `k` components (see `rest_after`).
fn rest_text(path: &Vec<char>, k: usize) -> (r: Vec<char>)
    requires
        k == 0 || k >= head_len(path@),
    ensures
        r@ == (if k == 0 {
            path@.take(head_len(path@)) + join(trim_end_pieces(body_pieces(path@)), "/"@)
        } else {
            join(trim_end_pieces(trim_start_pieces(after_kept(body_pieces(path@), (k - head_len(path@)) as nat))), "/"@)
        }),
{
    let h = head_len_exec(path);
    let body = slice_chars_from(path, h);
    let pieces = split_chars(&body, '/');
    assert(seqs_of(pieces@) == body_pieces(path@));
    if k == 0 {
        let (a, b) = trimmed_bounds(&pieces, 0, false);
        assert(seqs_of(pieces@).skip(0) =~= seqs_of(pieces@));
        let mut out = slice_chars_to(path, h);
        let joined = join_range(&pieces, a, b);
        crate::text::extend_chars(&mut out, &joined);
        out
    } else {
        let m = after_kept_exec(&pieces, k - h);
        let (a, b) = trimmed_bounds(&pieces, m, true);
        join_range(&pieces, a, b)
    }
}

/// The text of `path` after the components of `base` (see `rest_after`).
fn rest_after_exec(path: &Vec<char>, base: &Vec<char>) -> (r: Option<Vec<char>>)
    ensures
        match r {
            Some(v) => rest_after(path@, base@) == Some(v@),
            None => rest_after(path@, base@) is None,
        },
{
    match matched_components(path, base) {
        None => None,
        Some(k) => {
            if k > 0 {
                proof {
                    lemma_head_matched(path@, base@);
                }
            }
            Some(rest_text(path, k))
        },
    }
}

fn slice_chars_from(v: &Vec<char>, from: usize) -> (r: Vec<char>)
    requires
        from <= v@.len(),
    ensures
        r@ == v@.skip(from as int),
{
    let r = crate::text::slice_chars(v, from, v.len());
    assert(v@.subrange(from as int, v@.len() as int) =~= v@.skip(from as int));
    r
}

fn slice_chars_to(v: &Vec<char>, to: usize) -> (r: Vec<char>)
    requires
        to <= v@.len(),
    ensures
        r@ == v@.take(to as int),
{
    let r = crate::text::slice_chars(v, 0, to);
    assert(v@.subrange(0, to as int) =~= v@.take(to as int));
    r
}

proof fn lemma_head_len(path: Seq<char>)
    ensures
        0 <= head_len(path) <= path.len(),
{
    crate::text::lemma_split_on_nonempty(path, '/');
    crate::text::lemma_index_of(path, '/');
    reveal_strlit(".");
}

/// When some component matched, the head (if any) is among them: `k >= head_len`.
proof fn lemma_head_matched(path: Seq<char>, base: Seq<char>)
    requires
        components(base).len() > 0,
        components(base).len() <= components(path).len(),
        components(path).take(components(base).len() as int) == components(base),
    ensures
        components(base).len() >= head_len(path),
{
}

/// Relative path string (forward slashes) of `path` against `root`, for display.
///
/// When `root`'s components are a prefix of `path`'s, the rest of `path` as
/// written after them (without leading or trailing separators and `.`
/// pieces); otherwise `path` itself.  Backslashes become `/`.  An empty
/// result is replaced by the file name of `path` (or `path` itself).
pub fn rel(path: &str, root: &str) -> (r: String)
    ensures
        r@ == rel_of(path@, root@),
{
    let pc = chars_of(path);
    let rc = chars_of(root);
    let rest = match rest_after_exec(&pc, &rc) {
        Some(t) => t,
        None => copy_chars(&pc),
    };
    let s = forward_slashes_chars(&rest);
    if s.len() == 0 {
        match file_name(path) {
            Some(n) => n,
            None => string_of(&pc),
        }
    } else {
        string_of(&s)
    }
}

// ---------------------------------------------------------------------------
// Source files
// ---------------------------------------------------------------------------

/// Rank of a component's kind: the root, then a leading `.`, then `..`,
/// then ordinary names.
pub open spec fn component_kind(c: Seq<char>) -> int {
    if c == "/"@ {
        0
    } else if c == "."@ {
        1
    } else if c == ".."@ {
        2
    } else {
        3
    }
}

/// Order of two components: by kind, then names by their characters.
pub open spec fn component_le(a: Seq<char>, b: Seq<char>) -> bool {
    component_kind(a) < component_kind(b) || (component_kind(a) == component_kind(b) && text_le(a, b))
}

/// Lexicographic order of component sequences.
pub open spec fn components_le(a: Seq<Seq<char>>, b: Seq<Seq<char>>) -> bool
    decreases a.len(),
{
    if a.len() == 0 {
        true
    } else if b.len() == 0 {
        false
    } else if a[0] != b[0] {
        component_le(a[0], b[0])
    } else {
        components_le(a.drop_first(), b.drop_first())
    }
}

/// Path order: component by component.
pub open spec fn path_le(a: Seq<char>, b: Seq<char>) -> bool {
    components_le(components(a), components(b))
}

/// The paths with a supported language, in order.
pub open spec fn supported_paths(ps: Seq<Seq<char>>) -> Seq<Seq<char>>
    decreases ps.len(),
{
    if ps.len() == 0 {
        seq![]
    } else {
        let r = supported_paths(ps.drop_last());
        if language_of_path(ps.last()) is Some {
            r.push(ps.last())
        } else {
            r
        }
    }
}

fn component_kind_exec(c: &Vec<char>) -> (k: u8)
    ensures
        k == component_kind(c@),
{
    if chars_eq(c, &chars_of("/")) {
        0
    } else if chars_eq(c, &chars_of(".")) {
        1
    } else if chars_eq(c, &chars_of("..")) {
        2
    } else {
        3
    }
}

fn components_le_exec(a: &Vec<Vec<char>>, b: &Vec<Vec<char>>) -> (r: bool)
    ensures
        r == components_le(seqs_of(a@), seqs_of(b@)),
{
    let ghost av = seqs_of(a@);
    let ghost bv = seqs_of(b@);
    let mut i: usize = 0;
    assert(av.skip(0) =~= av);
    assert(bv.skip(0) =~= bv);
    while i < a.len() && i < b.len() && chars_eq(&a[i], &b[i])
        invariant
            i <= a@.len(),
            i <= b@.len(),
            av == seqs_of(a@),
            bv == seqs_of(b@),
            components_le(av, bv) == components_le(av.skip(i as int), bv.skip(i as int)),
        decreases a@.len() - i,
    {
        assert(av.skip(i as int)[0] == av[i as int]);
        assert(bv.skip(i as int)[0] == bv[i as int]);
        assert(av.skip(i as int).drop_first() =~= av.skip(i + 1));
        assert(bv.skip(i as int).drop_first() =~= bv.skip(i + 1));
        i = i + 1;
    }
    if i == a.len() {
        true
    } else if i == b.len() {
        false
    } else {
        assert(av.skip(i as int)[0] == av[i as int]);
        assert(bv.skip(i as int)[0] == bv[i as int]);
        let ka = component_kind_exec(&a[i]);
        let kb = component_kind_exec(&b[i]);
        ka < kb || (ka == kb && text_le_exec(&a[i], &b[i]))
    }
}

/// The paths of `paths` that have a supported language, sorted by path
/// order (components compared one by one: the root first, then a leading
/// `.`, then `..`, then names by their characters); equal paths keep their
/// order.
pub fn source_files_of(paths: &Vec<String>) -> (r: Vec<String>)
    ensures
        r@.map_values(|s: String| s@) == sort_le(
            supported_paths(paths@.map_values(|s: String| s@)),
            |a: Seq<char>, b: Seq<char>| path_le(a, b),
        ),
{
    let ghost pv = paths@.map_values(|s: String| s@);
    let ghost le = |a: Seq<char>, b: Seq<char>| path_le(a, b);
    // keep the supported paths, with their components
    let mut kept: Vec<&String> = Vec::new();
    let mut comps: Vec<Vec<Vec<char>>> = Vec::new();
    let mut k: usize = 0;
    while k < paths.len()
        invariant
            k <= paths@.len(),
            pv == paths@.map_values(|s: String| s@),
            kept@.map_values(|s: &String| s@) == supported_paths(pv.take(k as int)),
            comps@.len() == kept@.len(),
            forall|e: int| 0 <= e < kept@.len() ==> seqs_of((#[trigger] comps@[e])@) == components(kept@[e]@),
        decreases paths@.len() - k,
    {
        assert(pv.take(k + 1).drop_last() =~= pv.take(k as int));
        assert(pv.take(k + 1).last() == paths@[k as int]@);
        if language_of(paths[k].as_str()).is_some() {
            let ghost before = kept@;
            kept.push(&paths[k]);
            comps.push(components_of(&chars_of(paths[k].as_str())));
            assert(kept@.map_values(|s: &String| s@) =~= before.map_values(|s: &String| s@).push(paths@[k as int]@));
        }
        k = k + 1;
    }
    assert(pv.take(paths@.len() as int) =~= pv);
    let ghost keys = kept@.map_values(|s: &String| s@);
    // insertion sort of positions
    let mut order: Vec<usize> = Vec::new();
    let mut i: usize = 0;
    assert(keys.take(0) =~= Seq::<Seq<char>>::empty());
    assert(order@.map_values(|p: usize| keys[p as int]) =~= Seq::<Seq<char>>::empty());
    while i < kept.len()
        invariant
            i <= kept@.len(),
            keys == kept@.map_values(|s: &String| s@),
            comps@.len() == kept@.len(),
            forall|e: int| 0 <= e < kept@.len() ==> seqs_of((#[trigger] comps@[e])@) == components(kept@[e]@),
            le == (|a: Seq<char>, b: Seq<char>| path_le(a, b)),
            order@.len() == i,
            forall|q: int| 0 <= q < order@.len() ==> (#[trigger] order@[q]) < i,
            order@.map_values(|p: usize| keys[p as int]) == sort_le(keys.take(i as int), le),
        decreases kept@.len() - i,
    {
        let mut j: usize = order.len();
        while j > 0 && !components_le_exec(&comps[order[j - 1]], &comps[i])
            invariant
                j <= order@.len(),
                i < kept@.len(),
                keys == kept@.map_values(|s: &String| s@),
                comps@.len() == kept@.len(),
                forall|e: int| 0 <= e < kept@.len() ==> seqs_of((#[trigger] comps@[e])@) == components(kept@[e]@),
                le == (|a: Seq<char>, b: Seq<char>| path_le(a, b)),
                forall|q: int| 0 <= q < order@.len() ==> (#[trigger] order@[q]) < i,
                forall|m: int| j <= m < order@.len() ==> !le(keys[order@[m] as int], keys[i as int]),
            decreases j,
        {
            j = j - 1;
        }
        let ghost sorted = order@.map_values(|p: usize| keys[p as int]);
        proof {
            if j > 0 {
                assert(sorted[j - 1] == keys[order@[j - 1] as int]);
                assert(le(sorted[j - 1], keys[i as int]));
            }
            assert forall|m: int| j <= m < sorted.len() implies !le(#[trigger] sorted[m], keys[i as int]) by {
                assert(sorted[m] == keys[order@[m] as int]);
            }
            lemma_insert_le_at(sorted, keys[i as int], le, j as int);
            assert(keys.take(i + 1).drop_last() =~= keys.take(i as int));
            assert(keys.take(i + 1).last() == keys[i as int]);
        }
        order.insert(j, i);
        assert(order@.map_values(|p: usize| keys[p as int]) =~= sorted.insert(j as int, keys[i as int]));
        i = i + 1;
        assert forall|q: int| 0 <= q < order@.len() implies (#[trigger] order@[q]) < i by {}
    }
    assert(keys.take(kept@.len() as int) =~= keys);
    let mut r: Vec<String> = Vec::new();
    let mut q: usize = 0;
    while q < order.len()
        invariant
            q <= order@.len() == kept@.len(),
            keys == kept@.map_values(|s: &String| s@),
            forall|m: int| 0 <= m < order@.len() ==> (#[trigger] order@[m]) < kept@.len(),
            r@.map_values(|s: String| s@) == order@.map_values(|p: usize| keys[p as int]).take(q as int),
        decreases order@.len() - q,
    {
        let ghost before = r@;
        let s = string_of(&chars_of(kept[order[q]].as_str()));
        assert(s@ == keys[order@[q as int] as int]);
        r.push(s);
        assert(r@.map_values(|s: String| s@) =~= before.map_values(|s: String| s@).push(keys[order@[q as int] as int]));
        assert(order@.map_values(|p: usize| keys[p as int]).take(q + 1) =~= order@.map_values(|p: usize| keys[p as int]).take(q as int).push(keys[order@[q as int] as int]));
        q = q + 1;
    }
    assert(order@.map_values(|p: usize| keys[p as int]).take(order@.len() as int) =~= order@.map_values(|p: usize| keys[p as int]));
    r
}

proof fn lemma_component_le(a: Seq<char>, b: Seq<char>, c: Seq<char>)
    ensures
        component_le(a, b) || component_le(b, a),
        component_le(a, b) && component_le(b, c) ==> component_le(a, c),
        component_le(a, b) && component_le(b, a) ==> a == b,
{
    lemma_text_le_total(a, b);
    if component_le(a, b) && component_le(b, c) && component_kind(a) == component_kind(b) && component_kind(b) == component_kind(c) {
        lemma_text_le_trans(a, b, c);
    }
    if component_le(a, b) && component_le(b, a) {
        lemma_text_le_antisymmetric(a, b);
    }
}

proof fn lemma_components_le_total(a: Seq<Seq<char>>, b: Seq<Seq<char>>)
    ensures
        components_le(a, b) || components_le(b, a),
    decreases a.len(),
{
    if a.len() > 0 && b.len() > 0 {
        if a[0] != b[0] {
            lemma_component_le(a[0], b[0], b[0]);
        } else {
            lemma_components_le_total(a.drop_first(), b.drop_first());
        }
    }
}

proof fn lemma_components_le_trans(a: Seq<Seq<char>>, b: Seq<Seq<char>>, c: Seq<Seq<char>>)
    requires
        components_le(a, b),
        components_le(b, c),
    ensures
        components_le(a, c),
    decreases a.len(),
{
    if a.len() > 0 {
        lemma_component_le(a[0], b[0], c[0]);
        lemma_component_le(c[0], a[0], b[0]);
        if a[0] == b[0] && b[0] == c[0] {
            lemma_components_le_trans(a.drop_first(), b.drop_first(), c.drop_first());
        } else if a[0] != b[0] && b[0] != c[0] && a[0] == c[0] {
            lemma_component_le(a[0], b[0], a[0]);
        }
    }
}

/// Source files come out in path order, each supported path exactly as often
/// as it was given.
pub proof fn source_files_in_path_order(paths: Seq<Seq<char>>)
    ensures
        sorted_le(
            sort_le(supported_paths(paths), |a: Seq<char>, b: Seq<char>| path_le(a, b)),
            |a: Seq<char>, b: Seq<char>| path_le(a, b),
        ),
        sort_le(supported_paths(paths), |a: Seq<char>, b: Seq<char>| path_le(a, b)).to_multiset()
            == supported_paths(paths).to_multiset(),
{
    let le = |a: Seq<char>, b: Seq<char>| path_le(a, b);
    assert forall|x: Seq<char>, y: Seq<char>| #[trigger] le(x, y) || le(y, x) by {
        lemma_components_le_total(components(x), components(y));
    }
    assert forall|x: Seq<char>, y: Seq<char>, z: Seq<char>| #[trigger] le(x, y) && #[trigger] le(y, z) implies le(x, z) by {
        lemma_components_le_trans(components(x), components(y), components(z));
    }
    assert(total_preorder(le));
    lemma_sort_le_sorted(supported_paths(paths), le);
}

} // verus!
