//! Stable descending ranking of a list of keys.
//!
//! Every ordering in this library (survivor selection, refinement, the final
//! result, tournament standings, weight summaries) is the same one: highest
//! key first, and among equal keys the one that came first stays first.

use vstd::prelude::*;

verus! {

/// `order` with the position `i` put in behind every entry whose key is at
/// least `keys[i]`, and in front of the entries with a smaller key.
pub open spec fn rank_insert(order: Seq<usize>, keys: Seq<i128>, i: usize) -> Seq<usize>
    decreases order.len(),
{
    if order.len() == 0 {
        seq![i]
    } else if keys[order.last() as int] >= keys[i as int] {
        order.push(i)
    } else {
        rank_insert(order.drop_last(), keys, i).push(order.last())
    }
}

/// The positions `0..n` of the first `n` keys, highest key first; positions
/// with equal keys stay in ascending order.
pub open spec fn ranking_of_first(keys: Seq<i128>, n: nat) -> Seq<usize>
    decreases n,
{
    if n == 0 {
        Seq::empty()
    } else {
        rank_insert(ranking_of_first(keys, (n - 1) as nat), keys, (n - 1) as usize)
    }
}

/// The positions of all keys, highest key first; positions with equal keys
/// stay in ascending order.
pub open spec fn ranking(keys: Seq<i128>) -> Seq<usize> {
    ranking_of_first(keys, keys.len())
}

/// `a` ranks strictly before `b`: its key is higher, or the keys are equal and
/// `a` is the earlier position.
pub open spec fn ranks_before(keys: Seq<i128>, a: usize, b: usize) -> bool {
    keys[a as int] > keys[b as int] || (keys[a as int] == keys[b as int] && a < b)
}

/// The position `i` is an entry of `order`.
pub open spec fn occurs_in(order: Seq<usize>, i: int) -> bool {
    exists|p: int| 0 <= p < order.len() && #[trigger] order[p] == i
}

/// `order` lists each of the positions `0..n` exactly once, and every entry
/// ranks strictly before all the entries behind it.
pub open spec fn is_stable_descending(keys: Seq<i128>, order: Seq<usize>, n: nat) -> bool {
    &&& order.len() == n
    &&& forall|p: int| 0 <= p < order.len() ==> (#[trigger] order[p]) < n
    &&& forall|p: int, q: int|
        0 <= p < q < order.len() ==> ranks_before(keys, #[trigger] order[p], #[trigger] order[q])
    &&& forall|i: int| 0 <= i < n ==> #[trigger] occurs_in(order, i)
}

/// `rank_insert` puts the position in at one place: behind an entry with at
/// least its key, and in front of entries with a smaller key only.
proof fn lemma_rank_insert_shape(order: Seq<usize>, keys: Seq<i128>, i: usize)
    ensures
        exists|p: int|
            0 <= p <= order.len() && #[trigger] rank_insert(order, keys, i) == order.insert(p, i)
                && (forall|a: int| p <= a < order.len() ==> keys[order[a] as int] < keys[i as int])
                && (p > 0 ==> keys[order[p - 1] as int] >= keys[i as int]),
    decreases order.len(),
{
    if order.len() == 0 {
        assert(rank_insert(order, keys, i) == order.insert(0, i));
    } else if keys[order.last() as int] >= keys[i as int] {
        assert(rank_insert(order, keys, i) == order.insert(order.len() as int, i));
    } else {
        let front = order.drop_last();
        lemma_rank_insert_shape(front, keys, i);
        let p = choose|p: int|
            0 <= p <= front.len() && #[trigger] rank_insert(front, keys, i) == front.insert(p, i)
                && (forall|a: int| p <= a < front.len() ==> keys[front[a] as int] < keys[i as int])
                && (p > 0 ==> keys[front[p - 1] as int] >= keys[i as int]);
        assert(front.insert(p, i).push(order.last()) == order.insert(p, i));
        assert forall|a: int| p <= a < order.len() implies keys[order[a] as int] < keys[i as int] by {
            if a < front.len() {
                assert(front[a] == order[a]);
            }
        }
        if p > 0 {
            assert(front[p - 1] == order[p - 1]);
        }
    }
}

/// Putting the next position into a stable descending order gives one.
proof fn lemma_rank_insert_keeps_order(order: Seq<usize>, keys: Seq<i128>, n: nat)
    requires
        is_stable_descending(keys, order, n),
        n < keys.len(),
        n <= usize::MAX,
    ensures
        is_stable_descending(keys, rank_insert(order, keys, n as usize), n + 1),
{
    let i = n as usize;
    lemma_rank_insert_shape(order, keys, i);
    let p = choose|p: int|
        0 <= p <= order.len() && #[trigger] rank_insert(order, keys, i) == order.insert(p, i)
            && (forall|a: int| p <= a < order.len() ==> keys[order[a] as int] < keys[i as int])
            && (p > 0 ==> keys[order[p - 1] as int] >= keys[i as int]);
    let next = order.insert(p, i);
    assert forall|a: int, b: int| 0 <= a < b < next.len() implies ranks_before(
        keys,
        #[trigger] next[a],
        #[trigger] next[b],
    ) by {
        if b < p {
            assert(next[a] == order[a] && next[b] == order[b]);
        } else if b == p {
            assert(next[a] == order[a]);
            if a < p - 1 {
                assert(ranks_before(keys, order[a], order[p - 1]));
            }
        } else if a < p {
            assert(next[a] == order[a] && next[b] == order[b - 1]);
        } else if a == p {
            assert(next[b] == order[b - 1]);
        } else {
            assert(next[a] == order[a - 1] && next[b] == order[b - 1]);
        }
    }
    assert forall|j: int| 0 <= j < n + 1 implies #[trigger] occurs_in(next, j) by {
        if j == n {
            assert(next[p] == j);
        } else {
            assert(occurs_in(order, j));
            let q0 = choose|q: int| 0 <= q < order.len() && #[trigger] order[q] == j;
            if q0 < p {
                assert(next[q0] == j);
            } else {
                assert(next[q0 + 1] == j);
            }
        }
    }
    assert forall|q: int| 0 <= q < next.len() implies (#[trigger] next[q]) < n + 1 by {
        if q < p {
            assert(next[q] == order[q]);
        } else if q > p {
            assert(next[q] == order[q - 1]);
        }
    }
}

/// What a ranking is: it lists every position exactly once, highest key
/// first, and positions with equal keys in ascending order.
pub proof fn lemma_ranking_is_stable_descending(keys: Seq<i128>, n: nat)
    requires
        n <= keys.len(),
        n <= usize::MAX,
    ensures
        is_stable_descending(keys, ranking_of_first(keys, n), n),
    decreases n,
{
    if n > 0 {
        lemma_ranking_is_stable_descending(keys, (n - 1) as nat);
        lemma_rank_insert_keeps_order(ranking_of_first(keys, (n - 1) as nat), keys, (n - 1) as nat);
    }
}

/// No position occurs twice in a ranking.
pub proof fn lemma_ranking_has_no_duplicates(keys: Seq<i128>, order: Seq<usize>, n: nat)
    requires
        is_stable_descending(keys, order, n),
    ensures
        forall|p: int, q: int|
            0 <= p < order.len() && 0 <= q < order.len() && p != q ==> #[trigger] order[p]
                != #[trigger] order[q],
{
    assert forall|p: int, q: int|
        0 <= p < order.len() && 0 <= q < order.len() && p != q implies #[trigger] order[p]
        != #[trigger] order[q] by {
        if p < q {
            assert(ranks_before(keys, order[p], order[q]));
        } else {
            assert(ranks_before(keys, order[q], order[p]));
        }
    }
}

/// Two stable descending orders of the same keys agree on their first `k`
/// entries.
proof fn lemma_same_prefix(keys: Seq<i128>, a: Seq<usize>, b: Seq<usize>, n: nat, k: nat)
    requires
        is_stable_descending(keys, a, n),
        is_stable_descending(keys, b, n),
        k <= n,
    ensures
        forall|j: int| 0 <= j < k ==> a[j] == b[j],
    decreases k,
{
    if k > 0 {
        lemma_same_prefix(keys, a, b, n, (k - 1) as nat);
        lemma_ranking_has_no_duplicates(keys, a, n);
        lemma_ranking_has_no_duplicates(keys, b, n);
        let at = k - 1;
        assert(occurs_in(b, a[at] as int));
        let q = choose|q: int| 0 <= q < b.len() && #[trigger] b[q] == a[at] as int;
        assert(occurs_in(a, b[at] as int));
        let p = choose|p: int| 0 <= p < a.len() && #[trigger] a[p] == b[at] as int;
        if q < at {
            assert(a[q] == b[q]);
        }
        if p < at {
            assert(a[p] == b[p]);
        }
        if q > at && p > at {
            assert(ranks_before(keys, b[at], b[q]));
            assert(ranks_before(keys, a[at], a[p]));
        }
    }
}

/// There is one stable descending order only: whatever lists every position
/// once, highest key first and equal keys in ascending order, is the ranking.
pub proof fn lemma_stable_descending_is_ranking(keys: Seq<i128>, order: Seq<usize>)
    requires
        keys.len() <= usize::MAX,
        is_stable_descending(keys, order, keys.len()),
    ensures
        order == ranking(keys),
{
    lemma_ranking_is_stable_descending(keys, keys.len());
    lemma_same_prefix(keys, order, ranking(keys), keys.len(), keys.len());
    assert(order =~= ranking(keys));
}

/// Puts position `i` into `order` where `rank_insert` puts it.
fn insert_ranked(order: &mut Vec<usize>, keys: &Vec<i128>, i: usize)
    requires
        i < keys.len(),
        forall|p: int| 0 <= p < old(order).len() ==> (#[trigger] old(order)[p]) < keys.len(),
    ensures
        final(order)@ == rank_insert(old(order)@, keys@, i),
{
    let ghost start = order@;
    let mut p: usize = order.len();
    proof {
        assert(start.take(p as int) == start);
        assert(rank_insert(start, keys@, i) + start.skip(p as int) == rank_insert(start, keys@, i));
    }
    while p > 0 && keys[order[p - 1]] < keys[i]
        invariant
            order@ == start,
            p <= order.len(),
            i < keys.len(),
            forall|q: int| 0 <= q < order.len() ==> (#[trigger] order[q]) < keys.len(),
            rank_insert(start, keys@, i) == rank_insert(start.take(p as int), keys@, i) + start.skip(
                p as int,
            ),
        decreases p,
    {
        proof {
            let front = start.take(p as int);
            assert(front.last() == start[p - 1]);
            assert(front.drop_last() == start.take(p - 1));
            assert(rank_insert(start.take(p - 1), keys@, i).push(start[p - 1]) + start.skip(p as int)
                == rank_insert(start.take(p - 1), keys@, i) + start.skip(p - 1));
        }
        p -= 1;
    }
    proof {
        let front = start.take(p as int);
        if p > 0 {
            assert(front.last() == start[p - 1]);
        }
        assert(rank_insert(front, keys@, i) == front.push(i));
        assert(front.push(i) + start.skip(p as int) == start.insert(p as int, i));
    }
    order.insert(p, i);
}

/// The positions of `keys`, highest key first; positions with equal keys stay
/// in ascending order.
pub fn rank_descending(keys: &Vec<i128>) -> (order: Vec<usize>)
    ensures
        order@ == ranking(keys@),
        is_stable_descending(keys@, order@, keys@.len()),
{
    let mut order: Vec<usize> = Vec::new();
    let mut i: usize = 0;
    while i < keys.len()
        invariant
            i <= keys.len(),
            order@ == ranking_of_first(keys@, i as nat),
            is_stable_descending(keys@, order@, i as nat),
        decreases keys.len() - i,
    {
        proof {
            lemma_ranking_is_stable_descending(keys@, (i + 1) as nat);
        }
        insert_ranked(&mut order, keys, i);
        i += 1;
    }
    order
}

/// The candidates `candidates`, put in the order that `order` gives to their
/// places in the list.
pub open spec fn arranged(candidates: Seq<usize>, order: Seq<usize>) -> Seq<usize> {
    Seq::new(order.len(), |k: int| candidates[order[k] as int])
}

/// The candidates by descending key, `keys[k]` being the key of
/// `candidates[k]`; candidates with equal keys keep their order.
pub fn rank_candidates(candidates: &Vec<usize>, keys: &Vec<i128>) -> (ranked: Vec<usize>)
    requires
        candidates.len() == keys.len(),
    ensures
        ranked@ == arranged(candidates@, ranking(keys@)),
        ranked@.len() == candidates@.len(),
{
    let order = rank_descending(keys);
    let mut ranked: Vec<usize> = Vec::new();
    let mut k: usize = 0;
    while k < order.len()
        invariant
            k <= order.len(),
            candidates.len() == keys.len(),
            is_stable_descending(keys@, order@, keys@.len()),
            ranked@ == arranged(candidates@, order@).take(k as int),
        decreases order.len() - k,
    {
        ranked.push(candidates[order[k]]);
        proof {
            assert(ranked@ == arranged(candidates@, order@).take(k + 1));
        }
        k += 1;
    }
    proof {
        assert(arranged(candidates@, order@).take(k as int) == arranged(candidates@, order@));
    }
    ranked
}

} // verus!
