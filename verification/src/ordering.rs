//! Stable ordering of rows by a two-part key.
//!
//! Queries that list rows order them by a pair of integers and leave rows
//! with equal keys in the order in which they were stored.

use vstd::prelude::*;

verus! {

/// Lexicographic `<=` on keys.
pub open spec fn key_le(a: (i64, i64), b: (i64, i64)) -> bool {
    a.0 < b.0 || (a.0 == b.0 && a.1 <= b.1)
}

/// The positions `sorted` with `i` put behind every position whose key is not
/// greater than that of `i`.
pub open spec fn insert_by_key(keys: Seq<(i64, i64)>, sorted: Seq<int>, i: int) -> Seq<int>
    decreases sorted.len(),
{
    if sorted.len() == 0 {
        seq![i]
    } else if key_le(keys[sorted.last()], keys[i]) {
        sorted.push(i)
    } else {
        insert_by_key(keys, sorted.drop_last(), i).push(sorted.last())
    }
}

/// The positions `0..n` ordered by key; positions with equal keys stay in
/// ascending order.
pub open spec fn stable_order(keys: Seq<(i64, i64)>, n: nat) -> Seq<int>
    decreases n,
{
    if n == 0 {
        Seq::empty()
    } else {
        insert_by_key(keys, stable_order(keys, (n - 1) as nat), n - 1)
    }
}

/// Executable positions as mathematical ones.
pub open spec fn as_ints(v: Seq<usize>) -> Seq<int> {
    Seq::new(v.len(), |k: int| v[k] as int)
}

/// The executable positions `v` are the mathematical positions `s`.
pub open spec fn same_positions(v: Seq<usize>, s: Seq<int>) -> bool {
    v.len() == s.len() && forall|k: int| 0 <= k < v.len() ==> #[trigger] v[k] as int == s[k]
}

/// Position `a` comes before position `b` in the stable order of `keys`.
pub open spec fn precedes(keys: Seq<(i64, i64)>, a: int, b: int) -> bool {
    if keys[a] == keys[b] {
        a < b
    } else {
        key_le(keys[a], keys[b])
    }
}

/// Inserting a position adds it and keeps every position that was there.
proof fn lemma_insert_by_key_shape(keys: Seq<(i64, i64)>, sorted: Seq<int>, i: int)
    ensures
        insert_by_key(keys, sorted, i).len() == sorted.len() + 1,
        insert_by_key(keys, sorted, i).contains(i),
        forall|k: int|
            0 <= k < sorted.len() ==> insert_by_key(keys, sorted, i).contains(#[trigger] sorted[k]),
        forall|k: int|
            0 <= k <= sorted.len() ==> {
                let x = #[trigger] insert_by_key(keys, sorted, i)[k];
                x == i || sorted.contains(x)
            },
    decreases sorted.len(),
{
    let out = insert_by_key(keys, sorted, i);
    if sorted.len() == 0 {
        assert(out[0] == i);
    } else if key_le(keys[sorted.last()], keys[i]) {
        assert(out[sorted.len() as int] == i);
        assert forall|k: int| 0 <= k < sorted.len() implies out.contains(#[trigger] sorted[k]) by {
            assert(out[k] == sorted[k]);
        }
    } else {
        let front = sorted.drop_last();
        lemma_insert_by_key_shape(keys, front, i);
        let inner = insert_by_key(keys, front, i);
        assert(out == inner.push(sorted.last()));
        let w = choose|w: int| 0 <= w < inner.len() && inner[w] == i;
        assert(out[w] == i);
        assert forall|k: int| 0 <= k < sorted.len() implies out.contains(#[trigger] sorted[k]) by {
            if k == sorted.len() - 1 {
                assert(out[inner.len() as int] == sorted[k]);
            } else {
                assert(front[k] == sorted[k]);
                let u = choose|u: int| 0 <= u < inner.len() && inner[u] == front[k];
                assert(out[u] == sorted[k]);
            }
        }
        assert forall|k: int| 0 <= k <= sorted.len() implies {
            let x = #[trigger] out[k];
            x == i || sorted.contains(x)
        } by {
            if k == sorted.len() {
                assert(sorted[sorted.len() - 1] == out[k]);
            } else {
                let x = inner[k];
                if x != i {
                    let u = choose|u: int| 0 <= u < front.len() && front[u] == x;
                    assert(sorted[u] == x);
                }
            }
        }
    }
}

/// Whether every pair of a sequence of positions is in stable order.
pub open spec fn in_stable_order(keys: Seq<(i64, i64)>, s: Seq<int>) -> bool {
    forall|a: int, b: int| 0 <= a < b < s.len() ==> precedes(keys, #[trigger] s[a], #[trigger] s[b])
}

/// Inserting a later position into positions in stable order keeps the order.
proof fn lemma_insert_by_key_sorted(keys: Seq<(i64, i64)>, sorted: Seq<int>, i: int)
    requires
        in_stable_order(keys, sorted),
        forall|k: int| 0 <= k < sorted.len() ==> 0 <= #[trigger] sorted[k] < i,
        0 <= i < keys.len(),
    ensures
        in_stable_order(keys, insert_by_key(keys, sorted, i)),
    decreases sorted.len(),
{
    let out = insert_by_key(keys, sorted, i);
    if sorted.len() == 0 {
    } else if key_le(keys[sorted.last()], keys[i]) {
        assert forall|a: int, b: int| 0 <= a < b < out.len() implies precedes(
            keys,
            #[trigger] out[a],
            #[trigger] out[b],
        ) by {
            if b == sorted.len() {
                if a < sorted.len() - 1 {
                    assert(precedes(keys, sorted[a], sorted[sorted.len() - 1]));
                }
            } else {
                assert(precedes(keys, sorted[a], sorted[b]));
            }
        }
    } else {
        let front = sorted.drop_last();
        let last = sorted.last();
        assert forall|a: int, b: int| 0 <= a < b < front.len() implies precedes(
            keys,
            #[trigger] front[a],
            #[trigger] front[b],
        ) by {
            assert(precedes(keys, sorted[a], sorted[b]));
        }
        assert forall|k: int| 0 <= k < front.len() implies 0 <= #[trigger] front[k] < i by {
            assert(front[k] == sorted[k]);
        }
        lemma_insert_by_key_sorted(keys, front, i);
        lemma_insert_by_key_shape(keys, front, i);
        let inner = insert_by_key(keys, front, i);
        assert forall|a: int, b: int| 0 <= a < b < out.len() implies precedes(
            keys,
            #[trigger] out[a],
            #[trigger] out[b],
        ) by {
            if b == inner.len() {
                let x = inner[a];
                if x == i {
                    assert(sorted[sorted.len() - 1] == last);
                } else {
                    let u = choose|u: int| 0 <= u < front.len() && front[u] == x;
                    assert(precedes(keys, sorted[u], sorted[sorted.len() - 1]));
                }
            } else {
                assert(precedes(keys, inner[a], inner[b]));
            }
        }
    }
}

/// The stable order of `n` keys lists each of the positions `0..n` once.
pub proof fn lemma_stable_order_permutes(keys: Seq<(i64, i64)>, n: nat)
    ensures
        stable_order(keys, n).len() == n,
        forall|k: int| 0 <= k < n ==> 0 <= #[trigger] stable_order(keys, n)[k] < n,
        forall|p: int| 0 <= p < n ==> stable_order(keys, n).contains(p),
    decreases n,
{
    if n > 0 {
        let before = stable_order(keys, (n - 1) as nat);
        lemma_stable_order_permutes(keys, (n - 1) as nat);
        lemma_insert_by_key_shape(keys, before, n - 1);
        let out = stable_order(keys, n);
        assert forall|k: int| 0 <= k < n implies 0 <= #[trigger] out[k] < n by {
            let x = out[k];
            if x != n - 1 {
                let u = choose|u: int| 0 <= u < before.len() && before[u] == x;
            }
        }
        assert forall|p: int| 0 <= p < n implies out.contains(p) by {
            if p < n - 1 {
                assert(before.contains(p));
                let u = choose|u: int| 0 <= u < before.len() && before[u] == p;
                assert(out.contains(before[u]));
            }
        }
    }
}

/// In the stable order a position with a smaller key comes first, and of two
/// positions with the same key the lower one.
pub proof fn lemma_stable_order_sorted(keys: Seq<(i64, i64)>, n: nat)
    requires
        n <= keys.len(),
    ensures
        in_stable_order(keys, stable_order(keys, n)),
    decreases n,
{
    if n > 0 {
        lemma_stable_order_sorted(keys, (n - 1) as nat);
        lemma_stable_order_permutes(keys, (n - 1) as nat);
        lemma_insert_by_key_sorted(keys, stable_order(keys, (n - 1) as nat), n - 1);
    }
}

/// Lexicographic `<=` on keys.
fn le(a: (i64, i64), b: (i64, i64)) -> (r: bool)
    ensures
        r == key_le(a, b),
{
    a.0 < b.0 || (a.0 == b.0 && a.1 <= b.1)
}

/// The positions of `keys` in stable order.
pub fn sort_positions(keys: &Vec<(i64, i64)>) -> (order: Vec<usize>)
    ensures
        as_ints(order@) == stable_order(keys@, keys@.len()),
{
    let mut order: Vec<usize> = Vec::new();
    let mut n: usize = 0;
    while n < keys.len()
        invariant
            n <= keys.len(),
            same_positions(order@, stable_order(keys@, n as nat)),
            forall|k: int| 0 <= k < order@.len() ==> #[trigger] order@[k] < n,
        decreases keys.len() - n,
    {
        let ghost before = stable_order(keys@, n as nat);
        let mut p: usize = order.len();
        assert(before.take(p as int) =~= before);
        assert(insert_by_key(keys@, before.take(p as int), n as int) + before.skip(p as int)
            =~= insert_by_key(keys@, before, n as int));
        while p > 0 && !le(keys[order[p - 1]], keys[n])
            invariant
                p <= order.len(),
                n < keys.len(),
                same_positions(order@, before),
                forall|k: int| 0 <= k < order@.len() ==> #[trigger] order@[k] < n,
                insert_by_key(keys@, before, n as int) == insert_by_key(
                    keys@,
                    before.take(p as int),
                    n as int,
                ) + before.skip(p as int),
            decreases p,
        {
            proof {
                let head = before.take(p as int);
                assert(head.last() == before[p - 1]);
                assert(order@[p - 1] as int == before[p - 1]);
                assert(head.drop_last() =~= before.take(p - 1));
                assert(insert_by_key(keys@, head, n as int) == insert_by_key(
                    keys@,
                    before.take(p - 1),
                    n as int,
                ).push(before[p - 1]));
                assert(insert_by_key(keys@, before.take(p - 1), n as int).push(before[p - 1])
                    + before.skip(p as int) =~= insert_by_key(
                    keys@,
                    before.take(p - 1),
                    n as int,
                ) + before.skip(p - 1));
            }
            p = p - 1;
        }
        proof {
            let head = before.take(p as int);
            if p > 0 {
                assert(head.last() == before[p - 1]);
                assert(order@[p - 1] as int == before[p - 1]);
            }
            assert(insert_by_key(keys@, head, n as int) == head.push(n as int));
            assert(head.push(n as int) + before.skip(p as int) =~= before.insert(
                p as int,
                n as int,
            ));
        }
        order.insert(p, n);
        n = n + 1;
    }
    assert(as_ints(order@) =~= stable_order(keys@, keys@.len()));
    order
}

} // verus!
