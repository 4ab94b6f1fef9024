use vstd::prelude::*;

use crate::pairs::{pair_key, Pairs};
use crate::sorting::{order_by_key, pair_lt};

verus! {

/// The co-occurrence count a pair needs to be an edge: `min_count`, or half
/// the rarer tag's posts (rounded up) when that is less, but at least one, so a
/// rare tag is judged against its own size rather than dropped.
pub open spec fn needed_count(min_count: u32, pa: u32, pb: u32) -> int {
    let rarer = if pa <= pb { pa as int } else { pb as int };
    let half = (rarer + 1) / 2;
    let m = if (min_count as int) <= half { min_count as int } else { half };
    if m >= 1 { m } else { 1 }
}

/// The count a pair needs is at least one; it is never above `min_count`
/// unless it is one; it is never above half the rarer tag's posts, rounded up,
/// unless it is one; and it falls short of `min_count` only where it reaches
/// that half. So it is `min_count` where half the rarer tag is at least that,
/// and that half (at least one) where it is less.
pub proof fn lemma_threshold_law(min_count: u32, pa: u32, pb: u32)
    ensures
        ({
            let t = needed_count(min_count, pa, pb);
            let rarer = if pa <= pb { pa as int } else { pb as int };
            &&& t >= 1
            &&& t <= min_count || t == 1
            &&& 2 * t <= rarer + 1 || t == 1
            &&& t >= min_count || 2 * t >= rarer
            &&& (2 * min_count <= rarer + 1 && min_count >= 1) ==> t == min_count
            &&& 2 * min_count > rarer + 1 ==> 2 * t == rarer + 1 || 2 * t == rarer || (rarer == 0 && t == 1)
        }),
{
}

/// The co-occurrence count a pair of tags with `pa` and `pb` posts needs.
pub fn threshold(min_count: u32, pa: u32, pb: u32) -> (t: u32)
    ensures
        t == needed_count(min_count, pa, pb),
{
    let rarer = if pa <= pb { pa } else { pb };
    let half = rarer / 2 + rarer % 2;
    let m = if min_count <= half { min_count } else { half };
    if m >= 1 { m } else { 1 }
}

/// No link before position `x` joins the same two ends as link `x`.
pub open spec fn first_of_its_ends(a: Seq<u32>, b: Seq<u32>, x: int) -> bool {
    forall|q: int| 0 <= q < x ==> !(a[q] == a[x] && b[q] == b[x])
}

/// The links once each, by their ends in order: the position of the first
/// link with each pair of ends, ordered by first end, then second.
pub fn unique_links(a: &[u32], b: &[u32]) -> (out: Vec<u32>)
    requires
        a@.len() == b@.len(),
        a@.len() <= u32::MAX,
    ensures
        out@.no_duplicates(),
        forall|x: u32| #[trigger] out@.contains(x) <==> x < a@.len() && first_of_its_ends(a@, b@, x as int),
        forall|p: int, q: int|
            0 <= p < q < out@.len() ==> pair_key(a@[#[trigger] out@[p] as int], b@[out@[p] as int]) < pair_key(
                a@[#[trigger] out@[q] as int],
                b@[out@[q] as int],
            ),
{
    let m = a.len();
    let mut ids: Vec<u32> = Vec::new();
    let mut key: Vec<u64> = Vec::new();
    let mut j: usize = 0;
    while j < m
        invariant
            j <= m == a@.len() == b@.len(),
            m <= u32::MAX,
            ids@.len() == j,
            key@.len() == j,
            forall|x: int| 0 <= x < j ==> #[trigger] ids@[x] == x,
            forall|x: int| 0 <= x < j ==> #[trigger] key@[x] == pair_key(a@[x], b@[x]),
        decreases m - j,
    {
        ids.push(j as u32);
        key.push(Pairs::key(a[j], b[j]));
        j = j + 1;
    }
    let order = order_by_key(&ids, &key);
    assert forall|x: u32| #[trigger] order@.contains(x) <==> x < m by {
        if x < m {
            assert(ids@[x as int] == x);
        }
    }
    // the order goes by key, ties by position
    assert forall|p: int, q: int| 0 <= p < q < order@.len() implies pair_lt(
        (key@[#[trigger] order@[p] as int], order@[p] as u64),
        (key@[#[trigger] order@[q] as int], order@[q] as u64),
    ) by {}
    assert forall|t: int| 0 <= t < order@.len() implies (#[trigger] order@[t]) < m by {
        assert(order@.contains(order@[t]));
    }
    let mut out: Vec<u32> = Vec::new();
    let mut p: usize = 0;
    while p < order.len()
        invariant
            p <= order@.len() == m,
            m == a@.len() == b@.len(),
            key@.len() == m,
            forall|x: int| 0 <= x < m ==> #[trigger] key@[x] == pair_key(a@[x], b@[x]),
            order@.no_duplicates(),
            forall|x: u32| #[trigger] order@.contains(x) <==> x < m,
            forall|t: int| 0 <= t < order@.len() ==> (#[trigger] order@[t]) < m,
            forall|r: int, t: int|
                0 <= r < t < order@.len() ==> pair_lt(
                    (key@[#[trigger] order@[r] as int], order@[r] as u64),
                    (key@[#[trigger] order@[t] as int], order@[t] as u64),
                ),
            forall|y: u32| #[trigger] out@.contains(y) ==> exists|t: int| 0 <= t < p && order@[t] == y,
            forall|t: int|
                0 <= t < p ==> (out@.contains(#[trigger] order@[t]) <==> first_of_its_ends(
                    a@,
                    b@,
                    order@[t] as int,
                )),
            forall|r: int, u: int|
                0 <= r < u < out@.len() ==> #[trigger] key@[out@[r] as int] < #[trigger] key@[out@[u] as int],
            forall|r: int| 0 <= r < out@.len() ==> (#[trigger] out@[r]) < m,
            p > 0 ==> out@.len() > 0 && key@[out@.last() as int] == key@[order@[p - 1] as int],
        decreases m - p,
    {
        let x = order[p];
        assert(order@.contains(x));
        let keep = p == 0 || key[order[p - 1] as usize] != key[x as usize];
        proof {
            assert(forall|y: u32| #[trigger] out@.contains(y) ==> y != x) by {
                assert forall|y: u32| #[trigger] out@.contains(y) implies y != x by {
                    let t = choose|t: int| 0 <= t < p && order@[t] == y;
                    assert(order@[t] != order@[p as int]);
                }
            }
            if keep {
                assert forall|q: int| 0 <= q < x implies !(a@[q] == a@[x as int] && b@[q] == b@[x as int]) by {
                    if a@[q] == a@[x as int] && b@[q] == b@[x as int] {
                        assert(key@[q] == key@[x as int]);
                        assert(order@.contains(q as u32));
                        let t = choose|t: int| 0 <= t < order@.len() && order@[t] == q as u32;
                        if t > p {
                            assert(pair_lt(
                                (key@[order@[p as int] as int], order@[p as int] as u64),
                                (key@[order@[t] as int], order@[t] as u64),
                            ));
                        }
                        assert(t < p);
                        if t < p - 1 {
                            assert(pair_lt(
                                (key@[order@[t] as int], order@[t] as u64),
                                (key@[order@[p - 1] as int], order@[p - 1] as u64),
                            ));
                        }
                        assert(pair_lt(
                            (key@[order@[p - 1] as int], order@[p - 1] as u64),
                            (key@[order@[p as int] as int], order@[p as int] as u64),
                        ));
                    }
                }
                if p > 0 {
                    assert(pair_lt(
                        (key@[order@[p - 1] as int], order@[p - 1] as u64),
                        (key@[order@[p as int] as int], order@[p as int] as u64),
                    ));
                }
            } else {
                let q = order@[p - 1];
                assert(pair_lt(
                    (key@[order@[p - 1] as int], order@[p - 1] as u64),
                    (key@[order@[p as int] as int], order@[p as int] as u64),
                ));
                assert(q < x);
                crate::pairs::lemma_key_injective(a@[q as int], b@[q as int], a@[x as int], b@[x as int]);
                assert(!first_of_its_ends(a@, b@, x as int));
            }
        }
        let ghost before = out@;
        let ghost first_x = first_of_its_ends(a@, b@, x as int);
        assert(keep == first_x);
        if keep {
            out.push(x);
            proof {
                assert(out@ == before.push(x));
                if p > 0 {
                    assert(pair_lt(
                        (key@[order@[p - 1] as int], order@[p - 1] as u64),
                        (key@[order@[p as int] as int], order@[p as int] as u64),
                    ));
                    assert(key@[before.last() as int] < key@[x as int]);
                }
                assert forall|r: int, u: int| 0 <= r < u < out@.len() implies #[trigger] key@[out@[r] as int]
                    < #[trigger] key@[out@[u] as int] by {
                    assert(out@[r] == before[r]);
                    if u < before.len() {
                        assert(out@[u] == before[u]);
                        assert(key@[before[r] as int] < key@[before[u] as int]);
                    } else {
                        assert(out@[u] == x);
                        if p == 0 {
                            assert(before.contains(before[r]));
                        }
                        if r < before.len() - 1 {
                            assert(key@[before[r] as int] < key@[before[before.len() - 1] as int]);
                        }
                    }
                }
            }
        }
        proof {
            assert forall|y: u32| #[trigger] out@.contains(y) implies exists|t: int| 0 <= t < p + 1 && order@[t] == y by {
                if y == x {
                    assert(order@[p as int] == y);
                } else {
                    assert(before.contains(y));
                    let t = choose|t: int| 0 <= t < p && order@[t] == y;
                    assert(0 <= t < p + 1 && order@[t] == y);
                }
            }
            assert forall|t: int|
                0 <= t < p + 1 implies (out@.contains(#[trigger] order@[t]) <==> first_of_its_ends(
                a@,
                b@,
                order@[t] as int,
            )) by {
                if t < p {
                    assert(order@[t] != x);
                    if keep {
                        if out@.contains(order@[t]) {
                            let i = choose|i: int| 0 <= i < out@.len() && out@[i] == order@[t];
                            assert(i < before.len());
                            assert(before[i] == order@[t]);
                        }
                        if before.contains(order@[t]) {
                            let i = choose|i: int| 0 <= i < before.len() && before[i] == order@[t];
                            assert(out@[i] == order@[t]);
                        }
                    }
                    assert(out@.contains(order@[t]) == before.contains(order@[t]));
                } else {
                    if keep {
                        assert(out@[out@.len() - 1] == x);
                    } else {
                        assert(out@ == before);
                    }
                }
            }
        }
        p = p + 1;
    }
    assert forall|r: int, u: int| 0 <= r < u < out@.len() implies pair_key(
        a@[#[trigger] out@[r] as int],
        b@[out@[r] as int],
    ) < pair_key(a@[#[trigger] out@[u] as int], b@[out@[u] as int]) by {
        assert(key@[out@[r] as int] < key@[out@[u] as int]);
    }
    assert forall|x: u32| #[trigger] out@.contains(x) <==> x < a@.len() && first_of_its_ends(a@, b@, x as int) by {
        if out@.contains(x) {
            let t = choose|t: int| 0 <= t < order@.len() && order@[t] == x;
        }
        if x < a@.len() {
            assert(order@.contains(x));
            let t = choose|t: int| 0 <= t < order@.len() && order@[t] == x;
        }
    }
    assert(out@.no_duplicates()) by {
        assert forall|r: int, u: int| 0 <= r < out@.len() && 0 <= u < out@.len() && r != u implies out@[r] != out@[u] by {
            if r < u {
                assert(key@[out@[r] as int] < key@[out@[u] as int]);
            } else {
                assert(key@[out@[u] as int] < key@[out@[r] as int]);
            }
        }
    }
    out
}

} // verus!
