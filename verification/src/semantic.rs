//! Definition texts for the semantic index: the code of each definition (with
//! its doc comment) that is embedded and compared against a query.

use vstd::prelude::*;
use crate::tags::{opt_str_view, tags_view, Kind, Tag};
use crate::index::{def_positions, Index};
use crate::cache::{body_hash, default_str_hash};
use crate::bytes::{
    byte_offset, char_pos, is_boundary, last_pos_within, lemma_offsets_increase, utf8_width, width,
};
use crate::text::{chars_of, extend_chars, slice_chars, string_of, trim, trim_chars};

verus! {

/// Max bytes of a definition's code fed to the embedder.
pub const MAX_DEF_BYTES: usize = 2000;

/// A definition located by (file index, index into that file's `tags`).
#[derive(Debug, Clone, Copy, PartialEq, Eq, Structural)]
pub struct DefRef {
    pub file: usize,
    pub tag: usize,
}

pub open spec fn min_nat(a: nat, b: nat) -> nat {
    if a <= b { a } else { b }
}

/// The code of a definition spanning bytes `start_byte..end_byte` of `source`
/// (clamped to the source), cut to at most `MAX_DEF_BYTES` bytes at a char
/// boundary, trimmed, and preceded by its doc comment and a newline if it has one.
pub open spec fn def_text_of(source: Seq<char>, doc: Option<Seq<char>>, start_byte: nat, end_byte: nat) -> Seq<char> {
    let total = byte_offset(source, source.len() as int);
    let end = min_nat(end_byte, total);
    let start = min_nat(start_byte, end);
    let cs = char_pos(source, start);
    let ce = if end - start > MAX_DEF_BYTES {
        last_pos_within(source, (start + MAX_DEF_BYTES) as nat)
    } else {
        char_pos(source, end)
    };
    let body = trim(source.subrange(cs, ce));
    match doc {
        Some(d) => d + "\n"@ + body,
        None => body,
    }
}

/// The clamped byte range of a definition lies on char boundaries.
pub open spec fn def_range_ok(source: Seq<char>, start_byte: nat, end_byte: nat) -> bool {
    let total = byte_offset(source, source.len() as int);
    let end = min_nat(end_byte, total);
    let start = min_nat(start_byte, end);
    is_boundary(source, start) && is_boundary(source, end)
}

/// Extract the code text of a definition tag.
pub fn def_text(source: &str, tag: &Tag) -> (r: String)
    requires
        def_range_ok(source@, tag.start_byte as nat, tag.end_byte as nat),
    ensures
        r@ == def_text_of(source@, opt_str_view(tag.doc), tag.start_byte as nat, tag.end_byte as nat),
{
    let s = chars_of(source);
    let ghost sv = s@;
    // byte offsets of every character position
    let mut offs: Vec<u128> = Vec::new();
    let mut acc: u128 = 0;
    let mut i: usize = 0;
    while i < s.len()
        invariant
            i <= s@.len(),
            sv == s@,
            offs@.len() == i,
            acc == byte_offset(sv, i as int),
            acc <= 4 * i,
            forall|k: int| 0 <= k < i ==> offs@[k] == byte_offset(sv, k),
        decreases s@.len() - i,
    {
        offs.push(acc);
        acc = acc + width(s[i]);
        i = i + 1;
    }
    offs.push(acc);
    let ghost total = byte_offset(sv, sv.len() as int);
    assert(forall|k: int| 0 <= k <= sv.len() ==> offs@[k] == byte_offset(sv, k));
    let end: u128 = if (tag.end_byte as u128) < acc { tag.end_byte as u128 } else { acc };
    let start: u128 = if (tag.start_byte as u128) < end { tag.start_byte as u128 } else { end };
    let limit: u128 = start + 2000;
    // character positions of start, end, and the last position within the cap
    let mut cs: usize = 0;
    let mut ce: usize = 0;
    let mut cap: usize = 0;
    let mut k: usize = 0;
    while k < offs.len()
        invariant
            k <= offs@.len(),
            sv == s@,
            offs@.len() == sv.len() + 1,
            forall|q: int| 0 <= q <= sv.len() ==> offs@[q] == byte_offset(sv, q),
            cs <= sv.len(),
            ce <= sv.len(),
            cap <= sv.len(),
            forall|q: int| 0 <= q < k ==> (byte_offset(sv, q) == start ==> cs == q),
            forall|q: int| 0 <= q < k ==> (byte_offset(sv, q) == end ==> ce == q),
            k > 0 ==> byte_offset(sv, cap as int) <= limit && cap < k,
            forall|q: int| 0 <= q < k && byte_offset(sv, q) <= limit ==> q <= cap,
        decreases offs@.len() - k,
    {
        proof {
            assert forall|q: int| 0 <= q < k implies byte_offset(sv, q) < byte_offset(sv, k as int) by {
                lemma_offsets_increase(sv, q, k as int);
            }
        }
        if offs[k] == start {
            cs = k;
        }
        if offs[k] == end {
            ce = k;
        }
        if offs[k] <= limit {
            cap = k;
        }
        k = k + 1;
    }
    proof {
        let ps = choose|q: int| 0 <= q <= sv.len() && byte_offset(sv, q) == start;
        let pe = choose|q: int| 0 <= q <= sv.len() && byte_offset(sv, q) == end;
        assert(cs == ps);
        assert(ce == pe);
        assert(byte_offset(sv, 0) == 0);
        assert(byte_offset(sv, cap as int) <= limit);
        if cap < sv.len() {
            if byte_offset(sv, cap + 1) <= limit {
                assert(cap + 1 <= cap);
            }
        }
        let lp = last_pos_within(sv, limit as nat);
        assert(0 <= cap <= sv.len() && byte_offset(sv, cap as int) <= limit && (cap == sv.len() || byte_offset(sv, cap + 1) > limit));
        assert(0 <= lp <= sv.len() && byte_offset(sv, lp) <= limit && (lp == sv.len() || byte_offset(sv, lp + 1) > limit));
        if lp < cap {
            lemma_offsets_increase(sv, lp + 1, cap as int);
            if lp + 1 < cap {
            }
        } else if cap < lp {
            lemma_offsets_increase(sv, cap + 1, lp);
        }
        assert(lp == cap);
        if end - start > 2000 {
            // the cap lies inside the definition
            if cap < cs {
                lemma_offsets_increase(sv, cap as int, cs as int);
            }
            if cap > ce {
                lemma_offsets_increase(sv, ce as int, cap as int);
            }
        } else {
            if ce < cs {
                lemma_offsets_increase(sv, ce as int, cs as int);
            }
        }
    }
    let stop: usize = if end - start > 2000 { cap } else { ce };
    let body = trim_chars(&slice_chars(&s, cs, stop));
    match &tag.doc {
        Some(d) => {
            let mut out = chars_of(d.as_str());
            out.push('\n');
            proof {
                reveal_strlit("\n");
            }
            extend_chars(&mut out, &body);
            string_of(&out)
        },
        None => string_of(&body),
    }
}

/// Every definition tag of `tags` covers a byte range on char boundaries of `source`.
pub open spec fn def_ranges_ok(source: Seq<char>, tags: Seq<Tag>) -> bool {
    forall|k: int|
        0 <= k < tags.len() && (#[trigger] tags[k]).kind == Kind::Def ==> def_range_ok(
            source,
            tags[k].start_byte as nat,
            tags[k].end_byte as nat,
        )
}

/// For each definition of file `fi` (in tag order): its position among the
/// file's tags, its code text, and the hash of that text, which keys the
/// embedding cache.
pub fn def_entries(idx: &Index, fi: usize) -> (r: Vec<(usize, String, i64)>)
    requires
        fi < idx.files@.len(),
        def_ranges_ok(idx.files@[fi as int].source@, idx.files@[fi as int].tags@),
    ensures
        r@.map_values(|e: (usize, String, i64)| e.0) == def_positions(tags_view(idx.files@[fi as int].tags@)),
        forall|k: int|
            0 <= k < r@.len() ==> {
                let t = #[trigger] idx.files@[fi as int].tags@[r@[k].0 as int];
                &&& r@[k].1@ == def_text_of(
                    idx.files@[fi as int].source@,
                    opt_str_view(t.doc),
                    t.start_byte as nat,
                    t.end_byte as nat,
                )
                &&& r@[k].2 == default_str_hash(r@[k].1@) as i64
            },
{
    let file = &idx.files[fi];
    let defs = idx.defs(fi);
    let ghost positions = def_positions(tags_view(file.tags@));
    proof {
        assert(file.tags.len() == file.tags@.len());
        crate::index::def_positions_exact(tags_view(file.tags@));
    }
    let mut r: Vec<(usize, String, i64)> = Vec::new();
    let mut k: usize = 0;
    while k < defs.len()
        invariant
            k <= defs@.len(),
            file == &idx.files@[fi as int],
            def_ranges_ok(file.source@, file.tags@),
            defs@.map_values(|d: (usize, &Tag)| d.0) == positions,
            positions == def_positions(tags_view(file.tags@)),
            forall|q: int| 0 <= q < defs@.len() ==> *(#[trigger] defs@[q]).1 == file.tags@[defs@[q].0 as int],
            forall|q: int| 0 <= q < positions.len() ==> positions[q] < file.tags@.len()
                && tags_view(file.tags@)[positions[q] as int].kind == Kind::Def,
            r@.map_values(|e: (usize, String, i64)| e.0) == positions.take(k as int),
            forall|q: int|
                0 <= q < r@.len() ==> {
                    let t = #[trigger] file.tags@[r@[q].0 as int];
                    &&& r@[q].1@ == def_text_of(file.source@, opt_str_view(t.doc), t.start_byte as nat, t.end_byte as nat)
                    &&& r@[q].2 == default_str_hash(r@[q].1@) as i64
                },
        decreases defs@.len() - k,
    {
        let (ti, t) = defs[k];
        proof {
            assert(defs@.map_values(|d: (usize, &Tag)| d.0)[k as int] == ti);
            assert(positions[k as int] == ti);
            assert(tags_view(file.tags@)[ti as int] == file.tags@[ti as int]@);
        }
        let text = def_text(file.source.as_str(), t);
        let h = body_hash(text.as_str());
        let ghost before = r@;
        r.push((ti, text, h));
        proof {
            assert(r@.map_values(|e: (usize, String, i64)| e.0) =~= before.map_values(|e: (usize, String, i64)| e.0).push(ti));
            assert(positions.take(k + 1) =~= positions.take(k as int).push(ti));
            assert forall|q: int| 0 <= q < r@.len() implies {
                let t = #[trigger] file.tags@[r@[q].0 as int];
                &&& r@[q].1@ == def_text_of(file.source@, opt_str_view(t.doc), t.start_byte as nat, t.end_byte as nat)
                &&& r@[q].2 == default_str_hash(r@[q].1@) as i64
            } by {
                if q < before.len() {
                    assert(r@[q] == before[q]);
                }
            }
        }
        k = k + 1;
    }
    proof {
        assert(positions.take(defs@.len() as int) =~= positions);
        assert(defs@.map_values(|d: (usize, &Tag)| d.0).len() == defs@.len());
    }
    r
}

/// Number of empty slots among the first `i` slots.
pub open spec fn nones_before<T>(slots: Seq<Option<T>>, i: int) -> nat
    decreases i,
{
    if i <= 0 {
        0
    } else {
        nones_before(slots, i - 1) + if slots[i - 1] is None { 1nat } else { 0nat }
    }
}

/// Each slot keeps its value; the empty slots take the fresh values in
/// order, and stay empty once those run out.
pub open spec fn filled<T>(slots: Seq<Option<T>>, fresh: Seq<T>) -> Seq<Option<T>> {
    Seq::new(
        slots.len(),
        |i: int|
            match slots[i] {
                Some(v) => Some(v),
                None => if nones_before(slots, i) < fresh.len() {
                    Some(fresh[nones_before(slots, i) as int])
                } else {
                    None
                },
            },
    )
}

/// Fills the empty slots (the definitions without a cached vector) with the
/// freshly computed values, in order.
pub fn fill_slots<T>(slots: Vec<Option<T>>, fresh: Vec<T>) -> (r: Vec<Option<T>>)
    ensures
        r@ == filled(slots@, fresh@),
{
    let ghost s0 = slots@;
    let ghost f0 = fresh@;
    let mut slots = slots;
    let mut fresh = fresh;
    let mut out: Vec<Option<T>> = Vec::new();
    let mut k: usize = 0;
    assert(slots.len() == s0.len());
    while slots.len() > 0
        invariant
            k <= s0.len() <= usize::MAX,
            slots@ == s0.skip(k as int),
            fresh@ == f0.skip(if nones_before(s0, k as int) < f0.len() { nones_before(s0, k as int) as int } else { f0.len() as int }),
            out@ == filled(s0, f0).take(k as int),
        decreases slots@.len(),
    {
        let ghost n = nones_before(s0, k as int);
        let c = slots.remove(0);
        assert(c == s0[k as int]);
        let ghost before = out@;
        match c {
            Some(v) => {
                out.push(Some(v));
            },
            None => {
                if fresh.len() > 0 {
                    let v = fresh.remove(0);
                    assert(v == f0[n as int]);
                    out.push(Some(v));
                } else {
                    out.push(None);
                }
            },
        }
        proof {
            assert(out@ =~= filled(s0, f0).take(k + 1));
            assert(slots@ =~= s0.skip(k + 1));
            assert(fresh@ =~= f0.skip(if nones_before(s0, k + 1) < f0.len() { nones_before(s0, k + 1) as int } else { f0.len() as int }));
        }
        k = k + 1;
    }
    assert(out@ =~= filled(s0, f0));
    out
}

} // verus!
