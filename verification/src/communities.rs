use vstd::prelude::*;

use crate::sorting::{order_by_key, pair_lt};

verus! {

/// How many times `c` occurs in `s`.
pub open spec fn occurrences<A>(s: Seq<A>, c: A) -> nat
    decreases s.len(),
{
    if s.len() == 0 {
        0
    } else {
        occurrences(s.drop_last(), c) + if s.last() == c {
            1nat
        } else {
            0nat
        }
    }
}

pub(crate) proof fn lemma_occurrences_step<A>(s: Seq<A>, i: int, c: A)
    requires
        0 <= i < s.len(),
    ensures
        occurrences(s.take(i + 1), c) == occurrences(s.take(i), c) + if s[i] == c {
            1nat
        } else {
            0nat
        },
{
    assert(s.take(i + 1).drop_last() =~= s.take(i));
}

pub(crate) proof fn lemma_occurrences_positive<A>(s: Seq<A>, i: int)
    requires
        0 <= i < s.len(),
    ensures
        occurrences(s, s[i]) > 0,
    decreases s.len(),
{
    if i < s.len() - 1 {
        lemma_occurrences_positive(s.drop_last(), i);
    }
}

/// Two sequences that hold `a` and `b` at the same positions count them
/// equally often.
proof fn lemma_occurrences_relabel<A, B>(s: Seq<A>, t: Seq<B>, a: A, b: B)
    requires
        s.len() == t.len(),
        forall|i: int| 0 <= i < s.len() ==> (s[i] == a <==> #[trigger] t[i] == b),
    ensures
        occurrences(s, a) == occurrences(t, b),
    decreases s.len(),
{
    if s.len() > 0 {
        let (s1, t1) = (s.drop_last(), t.drop_last());
        assert forall|i: int| 0 <= i < s1.len() implies (s1[i] == a <==> #[trigger] t1[i] == b) by {
            assert(s1[i] == s[i] && t1[i] == t[i]);
        }
        lemma_occurrences_relabel(s1, t1, a, b);
        assert(t[t.len() - 1] == t.last());
    }
}

/// Some position of `s` holds `l`.
pub open spec fn used(s: Seq<u32>, l: int) -> bool {
    exists|i: int| 0 <= i < s.len() && s[i] == l
}

/// Renumbers communities by size, largest first and ties by the old number,
/// and returns each new community's size.
pub fn by_size(membership: &[usize]) -> (res: (Vec<u32>, Vec<usize>))
    requires
        membership@.len() < u32::MAX,
        forall|i: int| 0 <= i < membership@.len() ==> (#[trigger] membership@[i]) < u32::MAX,
    ensures
        res.0@.len() == membership@.len(),
        forall|i: int| 0 <= i < membership@.len() ==> (#[trigger] res.0@[i]) < res.1@.len(),
        forall|l: int| 0 <= l < res.1@.len() ==> #[trigger] used(res.0@, l),
        forall|l: int|
            0 <= l < res.1@.len() ==> #[trigger] res.1@[l] == occurrences(res.0@, l as u32),
        forall|i: int, j: int|
            0 <= i < membership@.len() && 0 <= j < membership@.len() ==> (membership@[i]
                == membership@[j] <==> #[trigger] res.0@[i] == #[trigger] res.0@[j]),
        forall|i: int, j: int|
            0 <= i < membership@.len() && 0 <= j < membership@.len() && (occurrences(
                membership@,
                membership@[j],
            ) < occurrences(membership@, membership@[i]) || (occurrences(
                membership@,
                membership@[j],
            ) == occurrences(membership@, membership@[i]) && membership@[i] < membership@[j]))
                ==> #[trigger] res.0@[i] < #[trigger] res.0@[j],
{
    let ghost m = membership@;
    let n = membership.len();
    let mut k: usize = 0;
    let mut i: usize = 0;
    while i < n
        invariant
            n == m.len(),
            m == membership@,
            i <= n,
            forall|j: int| 0 <= j < n ==> (#[trigger] m[j]) < u32::MAX,
            k <= u32::MAX,
            forall|j: int| 0 <= j < i ==> (#[trigger] m[j]) < k,
        decreases n - i,
    {
        if membership[i] + 1 > k {
            k = membership[i] + 1;
        }
        i = i + 1;
    }
    let mut sizes: Vec<usize> = Vec::new();
    let mut c: usize = 0;
    while c < k
        invariant
            c <= k,
            sizes@.len() == c,
            forall|x: int| 0 <= x < c ==> sizes@[x] == 0,
        decreases k - c,
    {
        sizes.push(0);
        c = c + 1;
    }
    let mut i: usize = 0;
    while i < n
        invariant
            n == m.len(),
            m == membership@,
            i <= n,
            sizes@.len() == k,
            forall|j: int| 0 <= j < n ==> (#[trigger] m[j]) < k,
            forall|x: int| 0 <= x < k ==> #[trigger] sizes@[x] == occurrences(m.take(i as int), x as usize),
            forall|x: int| 0 <= x < k ==> #[trigger] sizes@[x] <= i,
        decreases n - i,
    {
        let c = membership[i];
        proof {
            assert forall|x: int| 0 <= x < k implies #[trigger] occurrences(m.take(i + 1), x as usize)
                == occurrences(m.take(i as int), x as usize) + if m[i as int] == x as usize {
                1nat
            } else {
                0nat
            } by {
                lemma_occurrences_step(m, i as int, x as usize);
            }
        }
        sizes.set(c, sizes[c] + 1);
        i = i + 1;
    }
    assert(m.take(n as int) =~= m);
    // the nonempty communities, ordered by size descending, then number
    let mut ids: Vec<u32> = Vec::new();
    let mut key: Vec<u64> = Vec::new();
    let mut c: usize = 0;
    while c < k
        invariant
            c <= k,
            k <= u32::MAX,
            sizes@.len() == k,
            key@.len() == c,
            forall|x: int| 0 <= x < c ==> #[trigger] key@[x] == u64::MAX - sizes@[x],
            forall|j: int| 0 <= j < ids@.len() ==> (#[trigger] ids@[j]) < c,
            forall|j: int, l: int| 0 <= j < l < ids@.len() ==> ids@[j] < ids@[l],
            forall|x: u32| #[trigger] ids@.contains(x) <==> (x < c && sizes@[x as int] > 0),
            ids@.len() <= c,
        decreases k - c,
    {
        key.push(u64::MAX - sizes[c] as u64);
        let ghost before = ids@;
        if sizes[c] > 0 {
            ids.push(c as u32);
            assert forall|x: u32| #[trigger] ids@.contains(x) <==> (before.contains(x) || x == c) by {
                if ids@.contains(x) {
                    let j = choose|j: int| 0 <= j < ids@.len() && ids@[j] == x;
                    if j < before.len() {
                        assert(before[j] == x);
                    }
                }
                if before.contains(x) {
                    let j = choose|j: int| 0 <= j < before.len() && before[j] == x;
                    assert(ids@[j] == x);
                }
                if x == c {
                    assert(ids@[before.len() as int] == x);
                }
            }
        }
        c = c + 1;
    }
    let order = order_by_key(&ids, &key);
    let ghost kk = order@.len();
    assert forall|p: int| 0 <= p < order@.len() implies (#[trigger] order@[p]) < k by {
        assert(order@.contains(order@[p]));
        assert(ids@.contains(order@[p]));
    }
    let mut rank: Vec<u32> = Vec::new();
    let mut c: usize = 0;
    while c < k
        invariant
            c <= k,
            rank@.len() == c,
            forall|x: int| 0 <= x < c ==> rank@[x] == u32::MAX,
        decreases k - c,
    {
        rank.push(u32::MAX);
        c = c + 1;
    }
    let mut out_sizes: Vec<usize> = Vec::new();
    let mut r: usize = 0;
    while r < order.len()
        invariant
            r <= order@.len(),
            order@.len() <= k,
            k <= u32::MAX,
            order@.no_duplicates(),
            rank@.len() == k,
            sizes@.len() == k,
            forall|p: int| 0 <= p < order@.len() ==> (#[trigger] order@[p]) < k,
            forall|x: int|
                0 <= x < k ==> (#[trigger] rank@[x] == u32::MAX <==> !exists|p: int|
                    0 <= p < r && order@[p] == x),
            forall|p: int| 0 <= p < r ==> #[trigger] rank@[order@[p] as int] == p,
            out_sizes@.len() == r,
            forall|p: int| 0 <= p < r ==> #[trigger] out_sizes@[p] == sizes@[order@[p] as int],
        decreases order@.len() - r,
    {
        assert(order@.contains(order@[r as int]));
        let c = order[r] as usize;
        proof {
            assert forall|x: int|
                0 <= x < k implies (#[trigger] rank@.update(c as int, r as u32)[x] == u32::MAX <==> !exists|p: int|
                    0 <= p < r + 1 && order@[p] == x) by {
                if x == c {
                    assert(order@[r as int] == x);
                } else {
                    assert(rank@.update(c as int, r as u32)[x] == rank@[x]);
                    if exists|p: int| 0 <= p < r + 1 && order@[p] == x {
                        let p = choose|p: int| 0 <= p < r + 1 && order@[p] == x;
                        assert(p != r);
                        assert(exists|p: int| 0 <= p < r && order@[p] == x);
                    }
                    if exists|p: int| 0 <= p < r && order@[p] == x {
                        let p = choose|p: int| 0 <= p < r && order@[p] == x;
                        assert(0 <= p < r + 1 && order@[p] == x);
                    }
                }
            }
            assert forall|p: int| 0 <= p < r + 1 implies #[trigger] rank@.update(
                c as int,
                r as u32,
            )[order@[p] as int] == p by {
                if p < r {
                    assert(order@[p] != order@[r as int]);
                    assert(rank@[order@[p] as int] == p);
                }
            }
        }
        rank.set(c, r as u32);
        out_sizes.push(sizes[c]);
        r = r + 1;
    }
    // every nonempty community got a rank
    assert forall|x: int| 0 <= x < k && sizes@[x] > 0 implies #[trigger] rank@[x] < kk by {
        assert(ids@.contains(x as u32));
        assert(order@.contains(x as u32));
        let p = choose|p: int| 0 <= p < order@.len() && order@[p] == x as u32;
        assert(rank@[order@[p] as int] == p);
    }
    let mut renumbered: Vec<u32> = Vec::new();
    let mut i: usize = 0;
    while i < n
        invariant
            n == m.len(),
            m == membership@,
            i <= n,
            rank@.len() == k,
            sizes@.len() == k,
            forall|j: int| 0 <= j < n ==> (#[trigger] m[j]) < k,
            forall|x: int| 0 <= x < k ==> #[trigger] sizes@[x] == occurrences(m, x as usize),
            forall|x: int| 0 <= x < k && sizes@[x] > 0 ==> #[trigger] rank@[x] < kk,
            renumbered@.len() == i,
            forall|j: int| 0 <= j < i ==> #[trigger] renumbered@[j] == rank@[m[j] as int],
        decreases n - i,
    {
        renumbered.push(rank[membership[i]]);
        i = i + 1;
    }
    let ghost rn = renumbered@;
    assert forall|i: int| 0 <= i < n implies (#[trigger] rn[i]) < kk by {
        lemma_occurrences_positive(m, i);
        assert(sizes@[m[i] as int] > 0);
    }
    // ranks are distinct across communities
    assert forall|i: int, j: int|
        0 <= i < n && 0 <= j < n implies (m[i] == m[j] <==> #[trigger] rn[i] == #[trigger] rn[j]) by {
                    lemma_occurrences_positive(m, i);
            lemma_occurrences_positive(m, j);
        assert(sizes@[m[i] as int] > 0 && sizes@[m[j] as int] > 0);
        assert(rank@[m[i] as int] < kk);
        let pi = rank@[m[i] as int] as int;
        let pj = rank@[m[j] as int] as int;
        assert(rank@[m[i] as int] != u32::MAX);
        assert(exists|p: int| 0 <= p < kk && order@[p] == m[i]);
        let qi = choose|p: int| 0 <= p < kk && order@[p] == m[i];
        let qj_exists = rank@[m[j] as int] != u32::MAX;
        assert(exists|p: int| 0 <= p < kk && order@[p] == m[j]);
        let qj = choose|p: int| 0 <= p < kk && order@[p] == m[j];
        assert(rank@[order@[qi] as int] == qi);
        assert(rank@[order@[qj] as int] == qj);
    }
    // ranks follow size, then the old number
    assert forall|i: int, j: int|
        0 <= i < n && 0 <= j < n && (occurrences(m, m[j]) < occurrences(m, m[i]) || (occurrences(
            m,
            m[j],
        ) == occurrences(m, m[i]) && m[i] < m[j])) implies #[trigger] rn[i] < #[trigger] rn[j] by {
                    lemma_occurrences_positive(m, i);
            lemma_occurrences_positive(m, j);
        assert(sizes@[m[i] as int] > 0 && sizes@[m[j] as int] > 0);
        assert(rank@[m[i] as int] != u32::MAX && rank@[m[j] as int] != u32::MAX);
        let qi = choose|p: int| 0 <= p < kk && order@[p] == m[i];
        let qj = choose|p: int| 0 <= p < kk && order@[p] == m[j];
        assert(rank@[order@[qi] as int] == qi);
        assert(rank@[order@[qj] as int] == qj);
        assert(key@[m[i] as int] == u64::MAX - sizes@[m[i] as int]);
        assert(key@[m[j] as int] == u64::MAX - sizes@[m[j] as int]);
        if qj <= qi {
            if qj < qi {
                assert(pair_lt(
                    (key@[order@[qj] as int], order@[qj] as u64),
                    (key@[order@[qi] as int], order@[qi] as u64),
                ));
            }
        }
    }
    // every new number up to the count is used, and counts its community
    assert forall|l: int| 0 <= l < kk implies #[trigger] used(rn, l) by {
        let c = order@[l];
        assert(order@.contains(c));
        assert(ids@.contains(c));
        assert(sizes@[c as int] > 0);
        assert(occurrences(m, c as usize) > 0);
                    lemma_occurrences_exists(m, c as usize);
        let i = choose|i: int| 0 <= i < n && m[i] == c as usize;
        assert(rank@[order@[l] as int] == l);
        assert(rn[i] == l);
    }
    assert forall|l: int| 0 <= l < kk implies #[trigger] out_sizes@[l] == occurrences(rn, l as u32) by {
        let c = order@[l];
        assert(rank@[c as int] == l);
        assert forall|i: int| 0 <= i < n implies (m[i] == c as usize <==> #[trigger] rn[i] == l as u32) by {
            if m[i] == c as usize {
            } else {
                                    lemma_occurrences_positive(m, i);
                assert(sizes@[m[i] as int] > 0);
                assert(rank@[m[i] as int] < kk);
                assert(rank@[m[i] as int] != u32::MAX);
                assert(exists|p: int| 0 <= p < kk && order@[p] == m[i]);
                let qi = choose|p: int| 0 <= p < kk && order@[p] == m[i];
                assert(rank@[order@[qi] as int] == qi);
                assert(qi != l);
            }
        }
                    lemma_occurrences_relabel(m, rn, c as usize, l as u32);
    }
    (renumbered, out_sizes)
}

proof fn lemma_occurrences_exists<A>(s: Seq<A>, c: A)
    requires
        occurrences(s, c) > 0,
    ensures
        exists|i: int| 0 <= i < s.len() && s[i] == c,
    decreases s.len(),
{
    if s.last() == c {
        assert(s[s.len() - 1] == c);
    } else {
        lemma_occurrences_exists(s.drop_last(), c);
        let i = choose|i: int| 0 <= i < s.len() - 1 && s.drop_last()[i] == c;
        assert(s[i] == c);
    }
}

} // verus!
