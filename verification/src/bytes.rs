//! UTF-8 byte offsets of text positions.

use vstd::prelude::*;

verus! {

/// Number of bytes of `c` in UTF-8.
pub open spec fn utf8_width(c: char) -> nat {
    if (c as u32) < 0x80 {
        1
    } else if (c as u32) < 0x800 {
        2
    } else if (c as u32) < 0x10000 {
        3
    } else {
        4
    }
}

/// UTF-8 byte offset of character position `i` of `s`.
pub open spec fn byte_offset(s: Seq<char>, i: int) -> nat
    decreases i,
{
    if i <= 0 {
        0
    } else {
        byte_offset(s, i - 1) + utf8_width(s[i - 1])
    }
}

/// `b` is the byte offset of a character position of `s` (a char boundary).
pub open spec fn is_boundary(s: Seq<char>, b: nat) -> bool {
    exists|i: int| 0 <= i <= s.len() && byte_offset(s, i) == b
}

/// The character position at byte offset `b` (a boundary).
pub open spec fn char_pos(s: Seq<char>, b: nat) -> int {
    choose|i: int| 0 <= i <= s.len() && byte_offset(s, i) == b
}

/// The last character position whose byte offset is at most `b`.
pub open spec fn last_pos_within(s: Seq<char>, b: nat) -> int {
    choose|i: int| 0 <= i <= s.len() && #[trigger] byte_offset(s, i) <= b && (i == s.len() || byte_offset(s, i + 1) > b)
}

pub proof fn lemma_offsets_increase(s: Seq<char>, i: int, j: int)
    requires
        0 <= i < j,
    ensures
        byte_offset(s, i) < byte_offset(s, j),
    decreases j - i,
{
    if j > i + 1 {
        lemma_offsets_increase(s, i, j - 1);
    }
}

pub fn width(c: char) -> (w: u128)
    ensures
        w == utf8_width(c),
{
    let u = c as u32;
    if u < 0x80 {
        1
    } else if u < 0x800 {
        2
    } else if u < 0x10000 {
        3
    } else {
        4
    }
}

/// The UTF-8 byte offset of every character position `0..=s.len()`.
pub fn char_offsets(s: &Vec<char>) -> (offs: Vec<u128>)
    ensures
        offs@.len() == s@.len() + 1,
        forall|k: int| 0 <= k <= s@.len() ==> #[trigger] offs@[k] == byte_offset(s@, k),
{
    let mut offs: Vec<u128> = Vec::new();
    let mut acc: u128 = 0;
    let mut i: usize = 0;
    while i < s.len()
        invariant
            i <= s@.len(),
            offs@.len() == i,
            acc == byte_offset(s@, i as int),
            acc <= 4 * i,
            forall|k: int| 0 <= k < i ==> #[trigger] offs@[k] == byte_offset(s@, k),
        decreases s@.len() - i,
    {
        offs.push(acc);
        acc = acc + width(s[i]);
        i = i + 1;
    }
    offs.push(acc);
    offs
}

/// The character position whose byte offset is `b`, if `b` is a boundary.
pub fn find_boundary(s: Ghost<Seq<char>>, offs: &Vec<u128>, b: u128) -> (r: Option<usize>)
    requires
        offs@.len() == s@.len() + 1,
        forall|k: int| 0 <= k <= s@.len() ==> #[trigger] offs@[k] == byte_offset(s@, k),
    ensures
        match r {
            Some(i) => i <= s@.len() && byte_offset(s@, i as int) == b && is_boundary(s@, b as nat) && char_pos(
                s@,
                b as nat,
            ) == i,
            None => !is_boundary(s@, b as nat),
        },
{
    let ghost sv = s@;
    let mut lo: usize = 0;
    let mut hi: usize = offs.len();
    while lo < hi
        invariant
            lo <= hi <= offs@.len() == sv.len() + 1,
            sv == s@,
            forall|k: int| 0 <= k <= sv.len() ==> #[trigger] offs@[k] == byte_offset(sv, k),
            forall|k: int| 0 <= k < lo ==> byte_offset(sv, k) < b,
            forall|k: int| hi <= k <= sv.len() ==> byte_offset(sv, k) > b,
        decreases hi - lo,
    {
        let mid = lo + (hi - lo) / 2;
        if offs[mid] == b {
            proof {
                assert(offs@[mid as int] == byte_offset(sv, mid as int));
                assert(byte_offset(sv, mid as int) == b as nat);
                assert(is_boundary(sv, b as nat));
                let c = char_pos(sv, b as nat);
                if c < mid {
                    lemma_offsets_increase(sv, c, mid as int);
                } else if c > mid {
                    lemma_offsets_increase(sv, mid as int, c);
                }
            }
            return Some(mid);
        } else if offs[mid] < b {
            proof {
                assert forall|k: int| 0 <= k < mid + 1 implies byte_offset(sv, k) < b by {
                    if k < mid {
                        lemma_offsets_increase(sv, k, mid as int);
                    }
                }
            }
            lo = mid + 1;
        } else {
            proof {
                assert forall|k: int| mid <= k <= sv.len() implies byte_offset(sv, k) > b by {
                    if k > mid {
                        lemma_offsets_increase(sv, mid as int, k);
                    }
                }
            }
            hi = mid;
        }
    }
    proof {
        if is_boundary(sv, b as nat) {
            let c = choose|i: int| 0 <= i <= sv.len() && byte_offset(sv, i) == b;
            assert(c < lo || c >= hi);
        }
    }
    None
}

} // verus!
