//! Stable ranking: positions ordered by descending key, equal keys in their
//! original order.
use vstd::prelude::*;

verus! {

/// `x` put into the ranking `order`, behind every position whose key is at
/// least as large.
pub open spec fn insert_ranked(order: Seq<int>, keys: Seq<int>, x: int) -> Seq<int>
    decreases order.len(),
{
    if order.len() == 0 {
        seq![x]
    } else if keys[order.last()] >= keys[x] {
        order.push(x)
    } else {
        insert_ranked(order.drop_last(), keys, x).push(order.last())
    }
}

/// The first `n` positions of `keys`, by descending key, ties in order.
pub open spec fn ranked(keys: Seq<int>, n: int) -> Seq<int>
    decreases n,
{
    if n <= 0 {
        Seq::empty()
    } else {
        insert_ranked(ranked(keys, n - 1), keys, n - 1)
    }
}

/// All positions of `keys`, by descending key, ties in order.
pub open spec fn ranking(keys: Seq<int>) -> Seq<int> {
    ranked(keys, keys.len() as int)
}

/// The elements of `s` taken in the order `order`.
pub open spec fn taken<T>(s: Seq<T>, order: Seq<int>) -> Seq<T> {
    order.map_values(|i: int| s[i])
}

/// Position `a` comes before position `b` in a ranking by `keys`.
pub open spec fn ranks_before(keys: Seq<int>, a: int, b: int) -> bool {
    keys[a] > keys[b] || (keys[a] == keys[b] && a < b)
}

/// `order` lists positions of `keys` from the best rank down.
pub open spec fn in_rank_order(order: Seq<int>, keys: Seq<int>) -> bool {
    forall|i: int, j: int|
        0 <= i < j < order.len() ==> ranks_before(keys, #[trigger] order[i], #[trigger] order[j])
}

proof fn lemma_insert_ranked(order: Seq<int>, keys: Seq<int>, x: int)
    requires
        in_rank_order(order, keys),
        forall|i: int| 0 <= i < order.len() ==> #[trigger] order[i] < x,
    ensures
        insert_ranked(order, keys, x).len() == order.len() + 1,
        in_rank_order(insert_ranked(order, keys, x), keys),
        forall|y: int|
            #[trigger] insert_ranked(order, keys, x).contains(y) <==> (y == x || order.contains(y)),
    decreases order.len(),
{
    let out = insert_ranked(order, keys, x);
    if order.len() == 0 {
        assert(out[0] == x);
        assert forall|y: int| #[trigger] out.contains(y) <==> (y == x || order.contains(y)) by {
            if y == x {
                assert(out[0] == y);
            }
        }
    } else if keys[order.last()] >= keys[x] {
        assert forall|i: int, j: int| 0 <= i < j < out.len() implies ranks_before(
            keys,
            #[trigger] out[i],
            #[trigger] out[j],
        ) by {
            if j == order.len() {
                assert(order[i] < x);
                if i < order.len() - 1 {
                    assert(ranks_before(keys, order[i], order[order.len() - 1]));
                }
            }
        }
        assert forall|y: int| #[trigger] out.contains(y) <==> (y == x || order.contains(y)) by {
            if y == x {
                assert(out[order.len() as int] == y);
            }
            if order.contains(y) {
                let k = choose|k: int| 0 <= k < order.len() && order[k] == y;
                assert(out[k] == y);
            }
        }
    } else {
        let rest = order.drop_last();
        lemma_insert_ranked(rest, keys, x);
        let inner = insert_ranked(rest, keys, x);
        assert forall|i: int, j: int| 0 <= i < j < out.len() implies ranks_before(
            keys,
            #[trigger] out[i],
            #[trigger] out[j],
        ) by {
            if j == inner.len() {
                assert(inner.contains(inner[i]));
                if inner[i] != x {
                    let k = choose|k: int| 0 <= k < rest.len() && rest[k] == inner[i];
                    assert(ranks_before(keys, order[k], order[order.len() - 1]));
                }
            }
        }
        assert forall|y: int| #[trigger] out.contains(y) <==> (y == x || order.contains(y)) by {
            if y == order.last() {
                assert(out[inner.len() as int] == y);
                assert(order[order.len() - 1] == y);
            }
            if inner.contains(y) {
                let k = choose|k: int| 0 <= k < inner.len() && inner[k] == y;
                assert(out[k] == y);
                if y != x {
                    let m = choose|m: int| 0 <= m < rest.len() && rest[m] == y;
                    assert(order[m] == y);
                }
            }
            if order.contains(y) && y != order.last() {
                let m = choose|m: int| 0 <= m < order.len() && order[m] == y;
                assert(rest[m] == y);
                assert(inner.contains(y));
            }
            if out.contains(y) {
                let k = choose|k: int| 0 <= k < out.len() && out[k] == y;
                if k < inner.len() {
                    assert(inner[k] == y);
                    assert(inner.contains(y));
                }
            }
            if y == x {
                assert(inner.contains(x));
            }
        }
    }
}

/// A ranking lists every position exactly once, from the largest key down,
/// and positions with equal keys keep their order.
pub proof fn lemma_ranking(keys: Seq<int>)
    ensures
        ranking(keys).len() == keys.len(),
        in_rank_order(ranking(keys), keys),
        forall|y: int| #[trigger] ranking(keys).contains(y) <==> 0 <= y < keys.len(),
        forall|i: int|
            0 <= i < keys.len() ==> 0 <= #[trigger] ranking(keys)[i] < keys.len(),
{
    lemma_ranked(keys, keys.len() as int);
}

/// What [`lemma_ranking`] says, for the first `n` positions.
pub proof fn lemma_ranked(keys: Seq<int>, n: int)
    requires
        0 <= n <= keys.len(),
    ensures
        ranked(keys, n).len() == n,
        in_rank_order(ranked(keys, n), keys),
        forall|y: int| #[trigger] ranked(keys, n).contains(y) <==> 0 <= y < n,
        forall|i: int| 0 <= i < n ==> 0 <= #[trigger] ranked(keys, n)[i] < n,
    decreases n,
{
    if n > 0 {
        lemma_ranked(keys, n - 1);
        let prev = ranked(keys, n - 1);
        assert forall|i: int| 0 <= i < prev.len() implies #[trigger] prev[i] < n - 1 by {
            assert(prev.contains(prev[i]));
        }
        lemma_insert_ranked(prev, keys, n - 1);
    }
    let out = ranked(keys, n);
    assert forall|i: int| 0 <= i < n implies 0 <= #[trigger] out[i] < n by {
        assert(out.contains(out[i]));
    }
}

/// The positions of `keys` by descending key, ties in their original order.
pub fn order_desc(keys: &Vec<i128>) -> (order: Vec<usize>)
    ensures
        order@.map_values(|i: usize| i as int) == ranking(keys@.map_values(|k: i128| k as int)),
        order@.len() == keys@.len(),
        forall|i: int| 0 <= i < order@.len() ==> (#[trigger] order@[i]) < keys@.len(),
{
    let ghost ks = keys@.map_values(|k: i128| k as int);
    let mut order: Vec<usize> = Vec::new();
    let mut n: usize = 0;
    while n < keys.len()
        invariant
            n <= keys@.len(),
            ks == keys@.map_values(|k: i128| k as int),
            order@.len() == n,
            order@.map_values(|i: usize| i as int) == ranked(ks, n as int),
            forall|i: int| 0 <= i < order@.len() ==> (#[trigger] order@[i]) < n,
        decreases keys@.len() - n,
    {
        let ghost before = order@;
        let ghost before_ints = before.map_values(|i: usize| i as int);
        let mut at: usize = n;
        proof {
            assert(before_ints.take(n as int) =~= before_ints);
            assert(before_ints.skip(n as int) =~= Seq::empty());
        }
        while at > 0 && keys[order[at - 1]] < keys[n]
            invariant
                at <= n < keys@.len(),
                order@ == before,
                before.len() == n,
                ks == keys@.map_values(|k: i128| k as int),
                before_ints == before.map_values(|i: usize| i as int),
                forall|i: int| 0 <= i < before.len() ==> (#[trigger] before[i]) < n,
                insert_ranked(before_ints, ks, n as int) =~= insert_ranked(
                    before_ints.take(at as int),
                    ks,
                    n as int,
                ) + before_ints.skip(at as int),
            decreases at,
        {
            proof {
                let cut = before_ints.take(at as int);
                assert(cut.last() == before[at - 1] as int);
                assert(cut.drop_last() =~= before_ints.take(at - 1));
                assert(seq![cut.last()] + before_ints.skip(at as int) =~= before_ints.skip(
                    at - 1,
                ));
                assert(insert_ranked(cut, ks, n as int) =~= insert_ranked(
                    cut.drop_last(),
                    ks,
                    n as int,
                ).push(cut.last()));
            }
            at = at - 1;
        }
        proof {
            let cut = before_ints.take(at as int);
            if at > 0 {
                assert(cut.last() == before[at - 1] as int);
            }
            assert(insert_ranked(cut, ks, n as int) =~= cut.push(n as int));
        }
        order.insert(at, n);
        proof {
            assert(order@.map_values(|i: usize| i as int) =~= before_ints.take(at as int).push(
                n as int,
            ) + before_ints.skip(at as int));
        }
        n = n + 1;
    }
    order
}

/// Does `t` occur in the list before any `u` does?
pub open spec fn ahead<T>(list: Seq<T>, t: T, u: T) -> bool {
    exists|p: int|
        0 <= p < list.len() && #[trigger] list[p] == t && forall|q: int|
            0 <= q <= p ==> #[trigger] list[q] != u
}

/// What is taken first by a ranking is what ranks before all the others.
pub proof fn lemma_ranked_ahead<T>(s: Seq<T>, keys: Seq<int>, i: int, u: T)
    requires
        keys.len() <= s.len(),
        0 <= i < keys.len(),
        s[i] != u,
        forall|j: int|
            0 <= j < keys.len() && #[trigger] s[j] == u ==> keys[j] < keys[i] || (keys[j]
                == keys[i] && i < j),
    ensures
        ahead(taken(s, ranking(keys)), s[i], u),
{
    let order = ranking(keys);
    let out = taken(s, order);
    lemma_ranking(keys);
    assert(order.contains(i));
    let p = choose|p: int| 0 <= p < order.len() && order[p] == i;
    assert(out[p] == s[i]);
    assert forall|q: int| 0 <= q <= p implies #[trigger] out[q] != u by {
        let j = order[q];
        assert(out[q] == s[j]);
        if q < p && s[j] == u {
            assert(ranks_before(keys, order[q], order[p]));
        }
    }
}

/// What is taken before every `u` stays there when keys of its own rise and keys
/// of `u` sink.
pub proof fn lemma_stays_ahead<T>(s: Seq<T>, a: Seq<int>, b: Seq<int>, t: T, u: T)
    requires
        a.len() == b.len() <= s.len(),
        t != u,
        forall|k: int| 0 <= k < a.len() && #[trigger] s[k] == t ==> a[k] <= b[k],
        forall|k: int| 0 <= k < a.len() && #[trigger] s[k] == u ==> a[k] >= b[k],
        ahead(taken(s, ranking(a)), t, u),
    ensures
        ahead(taken(s, ranking(b)), t, u),
{
    let order = ranking(a);
    let out = taken(s, order);
    lemma_ranking(a);
    let p = choose|p: int|
        0 <= p < out.len() && #[trigger] out[p] == t && forall|q: int|
            0 <= q <= p ==> #[trigger] out[q] != u;
    let i = order[p];
    assert(s[i] == t);
    assert forall|j: int| 0 <= j < b.len() && #[trigger] s[j] == u implies b[j] < b[i] || (b[j]
        == b[i] && i < j) by {
        assert(order.contains(j));
        let q = choose|q: int| 0 <= q < order.len() && order[q] == j;
        assert(out[q] == u);
        assert(q > p);
        assert(ranks_before(a, order[p], order[q]));
    }
    lemma_ranked_ahead(s, b, i, u);
}

} // verus!
