//! Stable ordering by an integer key.

use vstd::prelude::*;

verus! {

/// Inserts `x` into `s` after every element whose key is at most `key(x)`
/// (scanning from the back), which keeps equal keys in arrival order.
pub open spec fn insert_by<T>(s: Seq<T>, x: T, key: spec_fn(T) -> int) -> Seq<T>
    decreases s.len(),
{
    if s.len() == 0 || key(s.last()) <= key(x) {
        s.push(x)
    } else {
        insert_by(s.drop_last(), x, key).push(s.last())
    }
}

/// Stable sort of `s` by `key` (ascending; equal keys keep their order).
pub open spec fn sort_by<T>(s: Seq<T>, key: spec_fn(T) -> int) -> Seq<T>
    decreases s.len(),
{
    if s.len() == 0 {
        s
    } else {
        insert_by(sort_by(s.drop_last(), key), s.last(), key)
    }
}

/// Inserts `x` into `s` after every element `y` with `le(y, x)` (scanning from
/// the back).
pub open spec fn insert_le<T>(s: Seq<T>, x: T, le: spec_fn(T, T) -> bool) -> Seq<T>
    decreases s.len(),
{
    if s.len() == 0 || le(s.last(), x) {
        s.push(x)
    } else {
        insert_le(s.drop_last(), x, le).push(s.last())
    }
}

/// Insertion sort of `s` by the ordering `le` (equal elements keep their order).
pub open spec fn sort_le<T>(s: Seq<T>, le: spec_fn(T, T) -> bool) -> Seq<T>
    decreases s.len(),
{
    if s.len() == 0 {
        s
    } else {
        insert_le(sort_le(s.drop_last(), le), s.last(), le)
    }
}

pub proof fn lemma_insert_le_at<T>(s: Seq<T>, x: T, le: spec_fn(T, T) -> bool, j: int)
    requires
        0 <= j <= s.len(),
        forall|m: int| j <= m < s.len() ==> !le(#[trigger] s[m], x),
        j == 0 || le(s[j - 1], x),
    ensures
        insert_le(s, x, le) == s.insert(j, x),
    decreases s.len(),
{
    if j == s.len() {
        assert(s.insert(j, x) =~= s.push(x));
    } else {
        let t = s.drop_last();
        assert forall|m: int| j <= m < t.len() implies !le(#[trigger] t[m], x) by {
            assert(t[m] == s[m]);
        }
        if j > 0 {
            assert(t[j - 1] == s[j - 1]);
        }
        lemma_insert_le_at(t, x, le, j);
        assert(t.insert(j, x).push(s.last()) =~= s.insert(j, x));
    }
}

/// `s` is ordered by `le`.
pub open spec fn sorted_le<T>(s: Seq<T>, le: spec_fn(T, T) -> bool) -> bool {
    forall|a: int, b: int| 0 <= a < b < s.len() ==> le(#[trigger] s[a], #[trigger] s[b])
}

/// `le` is a total preorder: any two elements compare, and it is transitive.
pub open spec fn total_preorder<T>(le: spec_fn(T, T) -> bool) -> bool {
    &&& forall|x: T, y: T| #[trigger] le(x, y) || le(y, x)
    &&& forall|x: T, y: T, z: T| #[trigger] le(x, y) && #[trigger] le(y, z) ==> le(x, z)
}

pub proof fn lemma_insert_le_sorted<T>(s: Seq<T>, x: T, le: spec_fn(T, T) -> bool)
    requires
        sorted_le(s, le),
        total_preorder(le),
    ensures
        sorted_le(insert_le(s, x, le), le),
        insert_le(s, x, le).to_multiset() == s.to_multiset().insert(x),
    decreases s.len(),
{
    broadcast use vstd::seq_lib::group_to_multiset_ensures;

    if s.len() == 0 || le(s.last(), x) {
        let r = s.push(x);
        assert forall|a: int, b: int| 0 <= a < b < r.len() implies le(#[trigger] r[a], #[trigger] r[b]) by {
            if b == s.len() {
                if a < s.len() - 1 {
                    assert(le(s[a], s[s.len() - 1]));
                    assert(le(s[s.len() - 1], x));
                }
            } else {
                assert(r[a] == s[a] && r[b] == s[b]);
            }
        }
    } else {
        let t = s.drop_last();
        assert forall|a: int, b: int| 0 <= a < b < t.len() implies le(#[trigger] t[a], #[trigger] t[b]) by {
            assert(t[a] == s[a] && t[b] == s[b]);
        }
        lemma_insert_le_sorted(t, x, le);
        let q = insert_le(t, x, le);
        let r = q.push(s.last());
        assert(le(x, s.last()));
        assert forall|a: int| 0 <= a < q.len() implies le(#[trigger] q[a], s.last()) by {
            assert(q.to_multiset().count(q[a]) > 0);
            if q[a] != x {
                assert(t.to_multiset().count(q[a]) > 0);
                let k = choose|k: int| 0 <= k < t.len() && t[k] == q[a];
                assert(le(s[k], s[s.len() - 1]));
            }
        }
        assert forall|a: int, b: int| 0 <= a < b < r.len() implies le(#[trigger] r[a], #[trigger] r[b]) by {
            if b == q.len() {
                assert(r[a] == q[a]);
            } else {
                assert(r[a] == q[a] && r[b] == q[b]);
            }
        }
        assert(s == t.push(s.last()));
        assert(r.to_multiset() =~= s.to_multiset().insert(x));
    }
}

/// Insertion sort by a total preorder orders the sequence and keeps its elements.
pub proof fn lemma_sort_le_sorted<T>(s: Seq<T>, le: spec_fn(T, T) -> bool)
    requires
        total_preorder(le),
    ensures
        sorted_le(sort_le(s, le), le),
        sort_le(s, le).to_multiset() == s.to_multiset(),
    decreases s.len(),
{
    broadcast use vstd::seq_lib::group_to_multiset_ensures;

    if s.len() > 0 {
        let t = s.drop_last();
        lemma_sort_le_sorted(t, le);
        lemma_insert_le_sorted(sort_le(t, le), s.last(), le);
        assert(s == t.push(s.last()));
    }
}

/// The indices `0, 1, ..., n - 1`.
pub open spec fn index_seq(n: nat) -> Seq<usize> {
    Seq::new(n, |i: int| i as usize)
}

pub proof fn lemma_insert_by_at<T>(s: Seq<T>, x: T, key: spec_fn(T) -> int, j: int)
    requires
        0 <= j <= s.len(),
        forall|m: int| j <= m < s.len() ==> key(#[trigger] s[m]) > key(x),
        j == 0 || key(s[j - 1]) <= key(x),
    ensures
        insert_by(s, x, key) == s.insert(j, x),
    decreases s.len(),
{
    if j == s.len() {
        assert(s.insert(j, x) =~= s.push(x));
    } else {
        let t = s.drop_last();
        assert forall|m: int| j <= m < t.len() implies key(#[trigger] t[m]) > key(x) by {
            assert(t[m] == s[m]);
        }
        if j > 0 {
            assert(t[j - 1] == s[j - 1]);
        }
        lemma_insert_by_at(t, x, key, j);
        assert(t.insert(j, x).push(s.last()) =~= s.insert(j, x));
    }
}

pub proof fn lemma_insert_by_contents<T>(s: Seq<T>, x: T, key: spec_fn(T) -> int)
    ensures
        insert_by(s, x, key).len() == s.len() + 1,
        forall|y: T| #[trigger] insert_by(s, x, key).contains(y) <==> (s.contains(y) || y == x),
    decreases s.len(),
{
    if s.len() == 0 || key(s.last()) <= key(x) {
        assert forall|y: T| s.push(x).contains(y) <==> (s.contains(y) || y == x) by {
            if s.push(x).contains(y) {
                let k = choose|k: int| 0 <= k < s.push(x).len() && s.push(x)[k] == y;
                if k < s.len() {
                    assert(s[k] == y);
                }
            }
            if s.contains(y) {
                let k = choose|k: int| 0 <= k < s.len() && s[k] == y;
                assert(s.push(x)[k] == y);
            }
            if y == x {
                assert(s.push(x)[s.len() as int] == y);
            }
        }
    } else {
        let t = s.drop_last();
        lemma_insert_by_contents(t, x, key);
        let r = insert_by(t, x, key);
        assert forall|y: T| r.push(s.last()).contains(y) <==> (s.contains(y) || y == x) by {
            if r.push(s.last()).contains(y) {
                let k = choose|k: int| 0 <= k < r.push(s.last()).len() && r.push(s.last())[k] == y;
                if k < r.len() {
                    assert(r[k] == y);
                    assert(r.contains(y));
                    assert(insert_by(t, x, key).contains(y));
                    if t.contains(y) {
                        let q = choose|q: int| 0 <= q < t.len() && t[q] == y;
                        assert(s[q] == y);
                        assert(s.contains(y));
                    }
                } else {
                    assert(s[s.len() - 1] == y);
                    assert(s.contains(y));
                }
            }
            if s.contains(y) {
                let k = choose|k: int| 0 <= k < s.len() && s[k] == y;
                if k < s.len() - 1 {
                    assert(t[k] == y);
                    assert(t.contains(y));
                    assert(insert_by(t, x, key).contains(y));
                    assert(r.contains(y));
                    let q = choose|q: int| 0 <= q < r.len() && r[q] == y;
                    assert(r.push(s.last())[q] == y);
                } else {
                    assert(r.push(s.last())[r.len() as int] == y);
                }
            }
            if y == x {
                assert(insert_by(t, x, key).contains(y));
                assert(r.contains(y));
                let q = choose|q: int| 0 <= q < r.len() && r[q] == y;
                assert(r.push(s.last())[q] == y);
            }
        }
    }
}

pub proof fn lemma_sort_by_contents<T>(s: Seq<T>, key: spec_fn(T) -> int)
    ensures
        sort_by(s, key).len() == s.len(),
        forall|y: T| #[trigger] sort_by(s, key).contains(y) <==> s.contains(y),
    decreases s.len(),
{
    if s.len() > 0 {
        let t = s.drop_last();
        lemma_sort_by_contents(t, key);
        lemma_insert_by_contents(sort_by(t, key), s.last(), key);
        assert forall|y: T| sort_by(s, key).contains(y) <==> s.contains(y) by {
            if t.contains(y) {
                let q = choose|q: int| 0 <= q < t.len() && t[q] == y;
                assert(s[q] == y);
            }
            if s.contains(y) {
                let k = choose|k: int| 0 <= k < s.len() && s[k] == y;
                if k < s.len() - 1 {
                    assert(t[k] == y);
                }
            }
        }
    }
}

pub proof fn lemma_insert_by_congruent<T>(s: Seq<T>, x: T, k1: spec_fn(T) -> int, k2: spec_fn(T) -> int)
    requires
        forall|y: T| #![trigger k1(y)] (s.contains(y) || y == x) ==> k1(y) == k2(y),
    ensures
        insert_by(s, x, k1) == insert_by(s, x, k2),
    decreases s.len(),
{
    if s.len() > 0 {
        let t = s.drop_last();
        assert(s.contains(s.last())) by {
            assert(s[s.len() - 1] == s.last());
        }
        assert forall|y: T| #![trigger k1(y)] (t.contains(y) || y == x) implies k1(y) == k2(y) by {
            if t.contains(y) {
                let q = choose|q: int| 0 <= q < t.len() && t[q] == y;
                assert(s[q] == y);
                assert(s.contains(y));
            }
        }
        lemma_insert_by_congruent(t, x, k1, k2);
        assert(k1(x) == k2(x));
        assert(k1(s.last()) == k2(s.last()));
    }
}

/// Sorting only depends on the keys of the elements being sorted.
pub proof fn lemma_sort_by_congruent<T>(s: Seq<T>, k1: spec_fn(T) -> int, k2: spec_fn(T) -> int)
    requires
        forall|y: T| #![trigger k1(y)] s.contains(y) ==> k1(y) == k2(y),
    ensures
        sort_by(s, k1) == sort_by(s, k2),
    decreases s.len(),
{
    if s.len() > 0 {
        let t = s.drop_last();
        assert forall|y: T| #![trigger k1(y)] t.contains(y) implies k1(y) == k2(y) by {
            let q = choose|q: int| 0 <= q < t.len() && t[q] == y;
            assert(s[q] == y);
            assert(s.contains(y));
        }
        lemma_sort_by_congruent(t, k1, k2);
        lemma_sort_by_contents(t, k1);
        assert(s.contains(s.last())) by {
            assert(s[s.len() - 1] == s.last());
        }
        assert forall|y: T| #![trigger k1(y)] (sort_by(t, k1).contains(y) || y == s.last()) implies k1(y) == k2(y) by {
            if sort_by(t, k1).contains(y) {
                assert(t.contains(y));
                let q = choose|q: int| 0 <= q < t.len() && t[q] == y;
                assert(s[q] == y);
                assert(s.contains(y));
            }
        }
        lemma_insert_by_congruent(sort_by(t, k1), s.last(), k1, k2);
    }
}

pub proof fn lemma_index_seq_contains(n: nat, y: usize)
    requires
        index_seq(n).contains(y),
    ensures
        y < n,
{
    let i = choose|i: int| 0 <= i < index_seq(n).len() && index_seq(n)[i] == y;
    assert(index_seq(n)[i] == i as usize);
}

/// The positions `0..keys.len()` ordered stably by `keys`.
pub fn sort_indices(keys: &Vec<usize>) -> (r: Vec<usize>)
    ensures
        r@ == sort_by(index_seq(keys@.len()), |i: usize| keys@[i as int] as int),
        r@.len() == keys@.len(),
        forall|k: int| 0 <= k < r@.len() ==> r@[k] < keys@.len(),
{
    let ghost key = |i: usize| keys@[i as int] as int;
    let ghost idx = index_seq(keys@.len());
    let mut r: Vec<usize> = Vec::new();
    let mut i: usize = 0;
    while i < keys.len()
        invariant
            i <= keys.len(),
            key == (|i: usize| keys@[i as int] as int),
            idx == index_seq(keys@.len()),
            r@ == sort_by(idx.take(i as int), key),
            r@.len() == i,
            forall|k: int| 0 <= k < r@.len() ==> r@[k] < i,
        decreases keys.len() - i,
    {
        let mut j: usize = r.len();
        while j > 0 && keys[r[j - 1]] > keys[i]
            invariant
                j <= r@.len(),
                i < keys.len(),
                forall|k: int| 0 <= k < r@.len() ==> r@[k] < i,
                forall|m: int| j <= m < r@.len() ==> keys@[r@[m] as int] > keys@[i as int],
            decreases j,
        {
            j = j - 1;
        }
        proof {
            assert(idx.take(i + 1).drop_last() =~= idx.take(i as int));
            assert(idx.take(i + 1).last() == i);
            lemma_insert_by_at(r@, i, key, j as int);
        }
        r.insert(j, i);
        i = i + 1;
        proof {
            assert forall|k: int| 0 <= k < r@.len() implies r@[k] < i by {
                let old_r = r@.remove(j as int);
                if k < j {
                } else if k > j {
                }
            }
        }
    }
    assert(idx.take(keys.len() as int) =~= idx);
    r
}

} // verus!
