//! The stable sort that the packer relies on, as a mathematical function on
//! sequences, with the facts that the rest of the library draws from it.

use vstd::prelude::*;

verus! {

/// `x` put into `sorted` directly behind the last entry whose key is not
/// greater than its own, so behind every entry with an equal key.
pub open spec fn insert_by_key<T>(sorted: Seq<T>, x: T, key: spec_fn(T) -> int) -> Seq<T>
    decreases sorted.len(),
{
    if sorted.len() == 0 || key(sorted.last()) <= key(x) {
        sorted.push(x)
    } else {
        insert_by_key(sorted.drop_last(), x, key).push(sorted.last())
    }
}

/// The entries of `s` in ascending order of their keys; entries with equal
/// keys stay in the order in which `s` holds them.
pub open spec fn sort_by_key<T>(s: Seq<T>, key: spec_fn(T) -> int) -> Seq<T>
    decreases s.len(),
{
    if s.len() == 0 {
        Seq::empty()
    } else {
        insert_by_key(sort_by_key(s.drop_last(), key), s.last(), key)
    }
}

/// Whether the keys of `s` never decrease from one entry to the next.
pub open spec fn sorted_by_key<T>(s: Seq<T>, key: spec_fn(T) -> int) -> bool {
    forall|i: int, j: int| 0 <= i <= j < s.len() ==> key(s[i]) <= key(s[j])
}

/// Inserting by key is inserting at the position `p` that parts the entries
/// with a key not above that of `x` from those with a greater key.
pub proof fn lemma_insert_position<T>(sorted: Seq<T>, x: T, key: spec_fn(T) -> int, p: int)
    requires
        0 <= p <= sorted.len(),
        forall|k: int| p <= k < sorted.len() ==> key(sorted[k]) > key(x),
        p > 0 ==> key(sorted[p - 1]) <= key(x),
    ensures
        insert_by_key(sorted, x, key) == sorted.insert(p, x),
    decreases sorted.len(),
{
    if p == sorted.len() {
        assert(sorted.push(x) =~= sorted.insert(p, x));
    } else {
        let front = sorted.drop_last();
        lemma_insert_position(front, x, key, p);
        assert(front.insert(p, x).push(sorted.last()) =~= sorted.insert(p, x));
    }
}

/// Inserting by key adds exactly one entry, `x`, and keeps a sorted sequence
/// sorted.
pub proof fn lemma_insert_by_key<T>(sorted: Seq<T>, x: T, key: spec_fn(T) -> int)
    ensures
        insert_by_key(sorted, x, key).len() == sorted.len() + 1,
        insert_by_key(sorted, x, key).to_multiset() == sorted.to_multiset().insert(x),
        sorted_by_key(sorted, key) ==> sorted_by_key(insert_by_key(sorted, x, key), key),
        forall|y: T| #[trigger]
            insert_by_key(sorted, x, key).contains(y) <==> y == x || sorted.contains(y),
    decreases sorted.len(),
{
    broadcast use vstd::seq_lib::group_to_multiset_ensures;

    let out = insert_by_key(sorted, x, key);
    if sorted.len() == 0 || key(sorted.last()) <= key(x) {
        assert forall|y: T| #[trigger] out.contains(y) <==> y == x || sorted.contains(y) by {
            if out.contains(y) {
                let k = choose|k: int| 0 <= k < out.len() && out[k] == y;
                if k < sorted.len() {
                    assert(sorted[k] == y);
                }
            }
            if sorted.contains(y) {
                let k = choose|k: int| 0 <= k < sorted.len() && sorted[k] == y;
                assert(out[k] == y);
            }
            if y == x {
                assert(out[sorted.len() as int] == y);
            }
        }
    } else {
        let front = sorted.drop_last();
        let last = sorted.last();
        let mid = insert_by_key(front, x, key);
        lemma_insert_by_key(front, x, key);
        assert(sorted =~= front.push(last));
        assert(sorted.to_multiset() == front.to_multiset().insert(last));
        assert(out.to_multiset() =~= sorted.to_multiset().insert(x));
        assert forall|y: T| #[trigger] out.contains(y) <==> y == x || sorted.contains(y) by {
            if out.contains(y) {
                let k = choose|k: int| 0 <= k < out.len() && out[k] == y;
                if k < mid.len() {
                    assert(mid[k] == y);
                    assert(mid.contains(y));
                    if front.contains(y) {
                        let m = choose|m: int| 0 <= m < front.len() && front[m] == y;
                        assert(sorted[m] == y);
                    }
                } else {
                    assert(sorted[sorted.len() - 1] == y);
                }
            }
            if sorted.contains(y) {
                let k = choose|k: int| 0 <= k < sorted.len() && sorted[k] == y;
                if k < front.len() {
                    assert(front[k] == y);
                    assert(front.contains(y));
                    assert(mid.contains(y));
                    let m = choose|m: int| 0 <= m < mid.len() && mid[m] == y;
                    assert(out[m] == y);
                } else {
                    assert(out[out.len() - 1] == y);
                }
            }
            if y == x {
                assert(mid.contains(x));
                let m = choose|m: int| 0 <= m < mid.len() && mid[m] == x;
                assert(out[m] == y);
            }
        }
        if sorted_by_key(sorted, key) {
            assert(sorted_by_key(front, key)) by {
                assert forall|i: int, j: int| 0 <= i <= j < front.len() implies key(front[i])
                    <= key(front[j]) by {
                    assert(key(sorted[i]) <= key(sorted[j]));
                }
            }
            assert forall|i: int, j: int| 0 <= i <= j < out.len() implies key(out[i]) <= key(
                out[j],
            ) by {
                if j < mid.len() {
                    assert(key(mid[i]) <= key(mid[j]));
                } else if i < mid.len() {
                    assert(mid.contains(mid[i]));
                    if mid[i] != x {
                        let m = choose|m: int| 0 <= m < front.len() && front[m] == mid[i];
                        assert(key(sorted[m]) <= key(sorted[sorted.len() - 1]));
                    }
                }
            }
        }
    }
}

/// Sorting keeps the entries, each as often as it occurred, and brings their
/// keys into ascending order.
pub proof fn lemma_sort_by_key<T>(s: Seq<T>, key: spec_fn(T) -> int)
    ensures
        sort_by_key(s, key).len() == s.len(),
        sort_by_key(s, key).to_multiset() == s.to_multiset(),
        sorted_by_key(sort_by_key(s, key), key),
        forall|y: T| #[trigger] sort_by_key(s, key).contains(y) <==> s.contains(y),
    decreases s.len(),
{
    broadcast use vstd::seq_lib::group_to_multiset_ensures;

    if s.len() == 0 {
        assert(sort_by_key(s, key).to_multiset() =~= s.to_multiset());
    } else {
        let front = s.drop_last();
        lemma_sort_by_key(front, key);
        lemma_insert_by_key(sort_by_key(front, key), s.last(), key);
        assert(s =~= front.push(s.last()));
        assert(s.to_multiset() == front.to_multiset().insert(s.last()));
        assert forall|y: T| #[trigger] sort_by_key(s, key).contains(y) <==> s.contains(y) by {
            if s.contains(y) {
                let k = choose|k: int| 0 <= k < s.len() && s[k] == y;
                if k < front.len() {
                    assert(front[k] == y);
                    assert(front.contains(y));
                }
            }
            if front.contains(y) {
                let k = choose|k: int| 0 <= k < front.len() && front[k] == y;
                assert(s[k] == y);
            }
        }
    }
}

/// The test that an entry has the key `value`.
pub open spec fn has_key<T>(key: spec_fn(T) -> int, value: int) -> spec_fn(T) -> bool {
    |x: T| key(x) == value
}

/// Inserting by key puts `x` behind the entries that share its key, and
/// leaves the entries of every other key as they are.
pub proof fn lemma_insert_is_stable<T>(sorted: Seq<T>, x: T, key: spec_fn(T) -> int, value: int)
    ensures
        insert_by_key(sorted, x, key).filter(has_key(key, value)) == if key(x) == value {
            sorted.filter(has_key(key, value)).push(x)
        } else {
            sorted.filter(has_key(key, value))
        },
    decreases sorted.len(),
{
    let same = has_key(key, value);
    if sorted.len() == 0 || key(sorted.last()) <= key(x) {
        sorted.lemma_filter_push(x, same);
    } else {
        let front = sorted.drop_last();
        let last = sorted.last();
        lemma_insert_is_stable(front, x, key, value);
        insert_by_key(front, x, key).lemma_filter_push(last, same);
        front.lemma_filter_push(last, same);
        assert(sorted =~= front.push(last));
    }
}

/// The sort is stable: the entries of any one key come out in the order in
/// which they went in.
pub proof fn lemma_sort_is_stable<T>(s: Seq<T>, key: spec_fn(T) -> int, value: int)
    ensures
        sort_by_key(s, key).filter(has_key(key, value)) == s.filter(has_key(key, value)),
    decreases s.len(),
{
    let same = has_key(key, value);
    if s.len() == 0 {
        assert(sort_by_key(s, key) =~= s);
    } else {
        let front = s.drop_last();
        lemma_sort_is_stable(front, key, value);
        lemma_insert_is_stable(sort_by_key(front, key), s.last(), key, value);
        front.lemma_filter_push(s.last(), same);
        assert(s =~= front.push(s.last()));
    }
}

/// Inserting by key adds what stands for `x`, whatever the entries are
/// taken to stand for.
pub proof fn lemma_insert_maps<T, U>(
    sorted: Seq<T>,
    x: T,
    key: spec_fn(T) -> int,
    f: spec_fn(T) -> U,
)
    ensures
        insert_by_key(sorted, x, key).map_values(f).to_multiset() == sorted.map_values(
            f,
        ).to_multiset().insert(f(x)),
    decreases sorted.len(),
{
    broadcast use vstd::seq_lib::group_to_multiset_ensures;

    if sorted.len() == 0 || key(sorted.last()) <= key(x) {
        assert(sorted.push(x).map_values(f) =~= sorted.map_values(f).push(f(x)));
    } else {
        let front = sorted.drop_last();
        let last = sorted.last();
        let mid = insert_by_key(front, x, key);
        lemma_insert_maps(front, x, key, f);
        assert(mid.push(last).map_values(f) =~= mid.map_values(f).push(f(last)));
        assert(sorted.map_values(f) =~= front.map_values(f).push(f(last)));
        assert(mid.map_values(f).to_multiset().insert(f(last)) =~= front.map_values(
            f,
        ).to_multiset().insert(f(last)).insert(f(x)));
    }
}

/// Sorting keeps what the entries stand for, each as often as it occurred.
pub proof fn lemma_sort_maps<T, U>(s: Seq<T>, key: spec_fn(T) -> int, f: spec_fn(T) -> U)
    ensures
        sort_by_key(s, key).map_values(f).to_multiset() == s.map_values(f).to_multiset(),
    decreases s.len(),
{
    broadcast use vstd::seq_lib::group_to_multiset_ensures;

    if s.len() == 0 {
        assert(sort_by_key(s, key).map_values(f) =~= s.map_values(f));
    } else {
        let front = s.drop_last();
        lemma_sort_maps(front, key, f);
        lemma_insert_maps(sort_by_key(front, key), s.last(), key, f);
        assert(s.map_values(f) =~= front.map_values(f).push(f(s.last())));
    }
}

} // verus!
