//! Ranking: the order of a list's places by falling key, equal keys as they stood.
use vstd::prelude::*;

verus! {

/// Whether place `i` ranks before place `j`: by the greater key, then by the lower place.
pub open spec fn ahead(keys: Seq<u128>, i: int, j: int) -> bool {
    keys[i] > keys[j] || (keys[i] == keys[j] && i < j)
}

/// Whether `order` holds the places `lo..hi`, each once, best first.
pub open spec fn ranks(keys: Seq<u128>, lo: int, hi: int, order: Seq<usize>) -> bool {
    &&& order.len() == hi - lo
    &&& forall|i: int| 0 <= i < order.len() ==> lo <= #[trigger] order[i] < hi
    &&& forall|i: int, j: int|
        0 <= i < j < order.len() ==> ahead(keys, #[trigger] order[i] as int, #[trigger] order[j] as int)
    &&& forall|p: int| lo <= p < hi ==> #[trigger] placed(order, p)
}

/// Whether `order` holds place `p`.
pub open spec fn placed(order: Seq<usize>, p: int) -> bool {
    exists|i: int| 0 <= i < order.len() && #[trigger] order[i] == p
}

/// The places of a list, best first.
pub open spec fn ranking(keys: Seq<u128>) -> Seq<usize> {
    choose|order: Seq<usize>| ranks(keys, 0, keys.len() as int, order)
}

/// There is one ranking of a list.
pub proof fn law_ranking_is_unique(keys: Seq<u128>, lo: int, hi: int, a: Seq<usize>, b: Seq<usize>)
    requires
        ranks(keys, lo, hi, a),
        ranks(keys, lo, hi, b),
    ensures
        a == b,
{
    lemma_same_prefix(keys, lo, hi, a, b, a.len() as int);
    assert(a =~= b);
}

proof fn lemma_same_prefix(
    keys: Seq<u128>,
    lo: int,
    hi: int,
    a: Seq<usize>,
    b: Seq<usize>,
    n: int,
)
    requires
        ranks(keys, lo, hi, a),
        ranks(keys, lo, hi, b),
        0 <= n <= a.len(),
    ensures
        forall|i: int| 0 <= i < n ==> a[i] == b[i],
    decreases n,
{
    if n > 0 {
        let k = n - 1;
        lemma_same_prefix(keys, lo, hi, a, b, k);
        assert(placed(b, a[k] as int));
        assert(placed(a, b[k] as int));
        let p = choose|p: int| 0 <= p < b.len() && b[p] == a[k];
        let q = choose|q: int| 0 <= q < a.len() && a[q] == b[k];
        if p < k {
            assert(a[p] == b[p]);
            assert(ahead(keys, a[p] as int, a[k] as int));
        }
        if q < k {
            assert(a[q] == b[q]);
            assert(ahead(keys, b[q] as int, b[k] as int));
        }
        if p > k && q > k {
            assert(ahead(keys, b[k] as int, b[p] as int));
            assert(ahead(keys, a[k] as int, a[q] as int));
        }
    }
}

/// The number of entries at the front of a ranking whose key is at least `k`.
spec fn front(keys: Seq<u128>, order: Seq<usize>, k: u128, n: int) -> int
    decreases n,
{
    if n <= 0 {
        0
    } else if keys[order[n - 1] as int] >= k {
        n
    } else {
        front(keys, order, k, n - 1)
    }
}

proof fn lemma_front(keys: Seq<u128>, lo: int, hi: int, order: Seq<usize>, k: u128, n: int)
    requires
        ranks(keys, lo, hi, order),
        0 <= n <= order.len(),
    ensures
        0 <= front(keys, order, k, n) <= n,
        forall|i: int|
            0 <= i < front(keys, order, k, n) ==> keys[#[trigger] order[i] as int] >= k,
        forall|i: int|
            front(keys, order, k, n) <= i < n ==> keys[#[trigger] order[i] as int] < k,
    decreases n,
{
    if n > 0 {
        if keys[order[n - 1] as int] >= k {
            assert forall|i: int| 0 <= i < n implies keys[#[trigger] order[i] as int] >= k by {
                if i < n - 1 {
                    assert(ahead(keys, order[i] as int, order[n - 1] as int));
                }
            }
        } else {
            lemma_front(keys, lo, hi, order, k, n - 1);
        }
    }
}

proof fn lemma_ranking_of_first(keys: Seq<u128>, hi: int) -> (order: Seq<usize>)
    requires
        0 <= hi <= keys.len(),
        hi <= 0xFFFF_FFFF,
    ensures
        ranks(keys, 0, hi, order),
    decreases hi,
{
    if hi == 0 {
        Seq::empty()
    } else {
        let rest = lemma_ranking_of_first(keys, hi - 1);
        let last = (hi - 1) as usize;
        let k = keys[hi - 1];
        let p = front(keys, rest, k, rest.len() as int);
        lemma_front(keys, 0, hi - 1, rest, k, rest.len() as int);
        let order = rest.insert(p, last);
        assert(order[p] == last);
        assert forall|i: int| 0 <= i < order.len() && i != p implies order[i] == (if i < p {
            rest[i]
        } else {
            rest[i - 1]
        }) by {}
        assert forall|q: int| 0 <= q < hi implies #[trigger] placed(order, q) by {
            if q < hi - 1 {
                assert(placed(rest, q));
                let i = choose|i: int| 0 <= i < rest.len() && rest[i] == q;
                assert(order[if i < p {
                    i
                } else {
                    i + 1
                }] == q);
            }
        }
        assert forall|i: int, j: int| 0 <= i < j < order.len() implies ahead(
            keys,
            #[trigger] order[i] as int,
            #[trigger] order[j] as int,
        ) by {
            let a = if i < p {
                i
            } else {
                i - 1
            };
            let b = if j < p {
                j
            } else {
                j - 1
            };
            if i != p && j != p {
                assert(ahead(keys, rest[a] as int, rest[b] as int));
            } else if i == p {
                assert(keys[rest[b] as int] < k);
            } else {
                assert(keys[rest[a] as int] >= k);
                assert(rest[a] < hi - 1);
            }
        }
        order
    }
}

/// Every list has a ranking.
pub proof fn law_ranking_exists(keys: Seq<u128>)
    requires
        keys.len() <= 0xFFFF_FFFF,
    ensures
        ranks(keys, 0, keys.len() as int, ranking(keys)),
{
    let order = lemma_ranking_of_first(keys, keys.len() as int);
    assert(ranks(keys, 0, keys.len() as int, order));
}

/// A ranking holds every place of the list once. The key at an earlier place of it is the
/// greater one; of equal keys the one that stands first in the list comes first.
pub proof fn law_ranking_falls(keys: Seq<u128>)
    requires
        keys.len() <= 0xFFFF_FFFF,
    ensures
        ranking(keys).len() == keys.len(),
        forall|i: int| 0 <= i < keys.len() ==> 0 <= #[trigger] ranking(keys)[i] < keys.len(),
        forall|p: int| 0 <= p < keys.len() ==> ranking(keys).contains(#[trigger] (p as usize)),
        forall|i: int, j: int|
            0 <= i < j < keys.len() ==> {
                let (a, b) = (#[trigger] ranking(keys)[i] as int, #[trigger] ranking(keys)[j] as int);
                keys[a] > keys[b] || (keys[a] == keys[b] && a < b)
            },
{
    law_ranking_exists(keys);
    let order = ranking(keys);
    assert forall|p: int| 0 <= p < keys.len() implies order.contains(#[trigger] (p as usize)) by {
        assert(placed(order, p));
    }
}

/// The places of a list, best first.
pub fn rank(keys: &Vec<u128>) -> (order: Vec<usize>)
    ensures
        order@ == ranking(keys@),
        ranks(keys@, 0, keys@.len() as int, order@),
{
    let order = rank_range(keys, 0, keys.len());
    proof {
        law_ranking_is_unique(
            keys@,
            0,
            keys@.len() as int,
            order@,
            ranking(keys@),
        );
    }
    order
}

fn rank_range(keys: &Vec<u128>, lo: usize, hi: usize) -> (order: Vec<usize>)
    requires
        lo <= hi <= keys.len(),
    ensures
        ranks(keys@, lo as int, hi as int, order@),
    decreases hi - lo,
{
    if hi - lo < 2 {
        let mut order: Vec<usize> = Vec::new();
        if lo < hi {
            order.push(lo);
            assert(order@[0] == lo);
        }
        return order;
    }
    let mid = lo + (hi - lo) / 2;
    let a = rank_range(keys, lo, mid);
    let b = rank_range(keys, mid, hi);
    merge(keys, lo, mid, hi, &a, &b)
}

fn merge(
    keys: &Vec<u128>,
    lo: usize,
    mid: usize,
    hi: usize,
    a: &Vec<usize>,
    b: &Vec<usize>,
) -> (order: Vec<usize>)
    requires
        lo <= mid <= hi <= keys.len(),
        ranks(keys@, lo as int, mid as int, a@),
        ranks(keys@, mid as int, hi as int, b@),
    ensures
        ranks(keys@, lo as int, hi as int, order@),
{
    let mut order: Vec<usize> = Vec::new();
    let mut i: usize = 0;
    let mut j: usize = 0;
    while i < a.len() || j < b.len()
        invariant
            lo <= mid <= hi <= keys.len(),
            ranks(keys@, lo as int, mid as int, a@),
            ranks(keys@, mid as int, hi as int, b@),
            i <= a.len(),
            j <= b.len(),
            order@.len() == i + j,
            forall|k: int| 0 <= k < order@.len() ==> lo <= #[trigger] order@[k] < hi,
            forall|k: int, m: int|
                0 <= k < m < order@.len() ==> ahead(
                    keys@,
                    #[trigger] order@[k] as int,
                    #[trigger] order@[m] as int,
                ),
            forall|k: int, m: int|
                0 <= k < order@.len() && i <= m < a@.len() ==> ahead(
                    keys@,
                    #[trigger] order@[k] as int,
                    #[trigger] a@[m] as int,
                ),
            forall|k: int, m: int|
                0 <= k < order@.len() && j <= m < b@.len() ==> ahead(
                    keys@,
                    #[trigger] order@[k] as int,
                    #[trigger] b@[m] as int,
                ),
            forall|m: int| 0 <= m < i ==> placed(order@, #[trigger] a@[m] as int),
            forall|m: int| 0 <= m < j ==> placed(order@, #[trigger] b@[m] as int),
        decreases a.len() - i + (b.len() - j),
    {
        let left = j >= b.len() || (i < a.len() && keys[a[i]] >= keys[b[j]]);
        let p: usize = if left {
            a[i]
        } else {
            b[j]
        };
        let ghost before = order@;
        order.push(p);
        proof {
            assert(order@[before.len() as int] == p);
            assert forall|q: int| placed(before, q) implies placed(order@, q) by {
                let k = choose|k: int| 0 <= k < before.len() && before[k] == q;
                assert(order@[k] == q);
            }
            assert forall|m: int| 0 <= m < i implies placed(order@, #[trigger] a@[m] as int) by {
                assert(placed(before, a@[m] as int));
            }
            assert forall|m: int| 0 <= m < j implies placed(order@, #[trigger] b@[m] as int) by {
                assert(placed(before, b@[m] as int));
            }
            assert(placed(order@, p as int));
            if left {
                assert forall|m: int| j <= m < b@.len() implies ahead(
                    keys@,
                    p as int,
                    #[trigger] b@[m] as int,
                ) by {
                    if m > j {
                        assert(ahead(keys@, b@[j as int] as int, b@[m] as int));
                    }
                }
            } else {
                assert forall|m: int| i <= m < a@.len() implies ahead(
                    keys@,
                    p as int,
                    #[trigger] a@[m] as int,
                ) by {
                    if m > i {
                        assert(ahead(keys@, a@[i as int] as int, a@[m] as int));
                    }
                }
            }
        }
        if left {
            i = i + 1;
        } else {
            j = j + 1;
        }
    }
    proof {
        assert forall|p: int| lo <= p < hi implies #[trigger] placed(order@, p) by {
            if p < mid {
                assert(placed(a@, p));
                let m = choose|m: int| 0 <= m < a@.len() && a@[m] == p;
                assert(placed(order@, a@[m] as int));
            } else {
                assert(placed(b@, p));
                let m = choose|m: int| 0 <= m < b@.len() && b@[m] == p;
                assert(placed(order@, b@[m] as int));
            }
        }
    }
    order
}

} // verus!
