use vstd::prelude::*;
use vstd::utf8::encode_utf8;

verus! {

/// Lexicographic order on pairs of integers, as std orders tuples.
pub open spec fn pair_le(a: (u64, u64), b: (u64, u64)) -> bool {
    a.0 < b.0 || (a.0 == b.0 && a.1 <= b.1)
}

/// Strict lexicographic order on pairs of integers.
pub open spec fn pair_lt(a: (u64, u64), b: (u64, u64)) -> bool {
    a.0 < b.0 || (a.0 == b.0 && a.1 < b.1)
}

/// Every pair is no greater than any pair after it.
pub open spec fn sorted_pairs(s: Seq<(u64, u64)>) -> bool {
    forall|i: int, j: int| 0 <= i < j < s.len() ==> pair_le(#[trigger] s[i], #[trigger] s[j])
}

/// Calls std's `slice::sort_unstable` on pairs of integers. The contract claims
/// what its documentation says: the same elements come out, in ascending
/// (lexicographic) order.
#[verifier::external_body]
pub(crate) fn sort_pairs(v: &mut Vec<(u64, u64)>)
    ensures
        final(v)@.to_multiset() == old(v)@.to_multiset(),
        sorted_pairs(final(v)@),
{
    v.sort_unstable()
}

/// Strict lexicographic order on byte strings, as std orders `[u8]` and `str`.
pub open spec fn bytes_lt(a: Seq<u8>, b: Seq<u8>) -> bool
    decreases a.len(),
{
    if a.len() == 0 {
        b.len() > 0
    } else if b.len() == 0 {
        false
    } else if a[0] < b[0] {
        true
    } else if a[0] == b[0] {
        bytes_lt(a.drop_first(), b.drop_first())
    } else {
        false
    }
}

/// The order std gives `(u64, String, u64)`: field by field, the string by
/// its UTF-8 bytes.
pub open spec fn named_le(a: (u64, String, u64), b: (u64, String, u64)) -> bool {
    let x = encode_utf8(a.1@);
    let y = encode_utf8(b.1@);
    a.0 < b.0 || (a.0 == b.0 && (bytes_lt(x, y) || (x == y && a.2 <= b.2)))
}

/// Calls std's `slice::sort_unstable` on `(u64, String, u64)` tuples. The
/// contract claims what its documentation says: the same elements come out, in
/// ascending order, tuples comparing field by field and strings by their bytes.
#[verifier::external_body]
pub(crate) fn sort_named(v: &mut Vec<(u64, String, u64)>)
    ensures
        final(v)@.to_multiset() == old(v)@.to_multiset(),
        forall|i: int, j: int| 0 <= i < j < final(v)@.len() ==> named_le(#[trigger] final(v)@[i], #[trigger] final(v)@[j]),
{
    v.sort_unstable()
}

spec fn is_in(s: Seq<(u64, u64)>, x: (u64, u64)) -> bool {
    exists|j: int| 0 <= j < s.len() && #[trigger] s[j] == x
}

/// `ids` ordered by `(key[id], id)` ascending.
pub fn order_by_key(ids: &Vec<u32>, key: &Vec<u64>) -> (out: Vec<u32>)
    requires
        ids@.no_duplicates(),
        forall|i: int| 0 <= i < ids@.len() ==> (#[trigger] ids@[i]) < key@.len(),
    ensures
        out@.len() == ids@.len(),
        out@.no_duplicates(),
        forall|x: u32| #[trigger] out@.contains(x) <==> ids@.contains(x),
        forall|p: int, q: int|
            0 <= p < q < out@.len() ==> pair_lt(
                (key@[out@[p] as int], out@[p] as u64),
                (key@[out@[q] as int], out@[q] as u64),
            ),
{
    broadcast use vstd::seq_lib::group_to_multiset_ensures;

    let mut v: Vec<(u64, u64)> = Vec::new();
    let mut i: usize = 0;
    while i < ids.len()
        invariant
            i <= ids@.len(),
            v@.len() == i,
            forall|j: int| 0 <= j < ids@.len() ==> (#[trigger] ids@[j]) < key@.len(),
            forall|j: int|
                0 <= j < i ==> #[trigger] v@[j] == (key@[ids@[j] as int], ids@[j] as u64),
        decreases ids@.len() - i,
    {
        let id = ids[i];
        v.push((key[id as usize], id as u64));
        i = i + 1;
    }
    assert(v@.no_duplicates()) by {
        assert forall|a: int, b: int| 0 <= a < v@.len() && 0 <= b < v@.len() && a != b implies v@[a]
            != v@[b] by {
            assert(ids@[a] != ids@[b]);
        }
    }
    let ghost before = v@;
    proof {
        before.lemma_multiset_has_no_duplicates();
    }
    sort_pairs(&mut v);
    let ghost after = v@;
    assert(after.len() == before.len()) by {
        assert(after.to_multiset().len() == before.to_multiset().len());
    }
    proof {
        after.lemma_multiset_has_no_duplicates_conv();
    }
    // each sorted pair is one of the pairs that went in
    assert forall|p: int| 0 <= p < after.len() implies #[trigger] is_in(before, after[p]) by {
        assert(after.contains(after[p]));
        assert(after.to_multiset().count(after[p]) > 0);
        assert(before.contains(after[p]));
    }
    let mut out: Vec<u32> = Vec::new();
    let mut p: usize = 0;
    while p < v.len()
        invariant
            v@ == after,
            p <= after.len(),
            out@.len() == p,
            after.len() == before.len(),
            before.len() == ids@.len(),
            forall|j: int|
                0 <= j < ids@.len() ==> #[trigger] before[j] == (key@[ids@[j] as int], ids@[j] as u64),
            forall|q: int| 0 <= q < after.len() ==> #[trigger] is_in(before, after[q]),
            forall|q: int| 0 <= q < p ==> #[trigger] out@[q] as u64 == after[q].1,
            forall|q: int| 0 <= q < p ==> key@[#[trigger] out@[q] as int] == after[q].0,
        decreases after.len() - p,
    {
        assert(is_in(before, after[p as int]));
        let ghost j = choose|j: int| 0 <= j < before.len() && #[trigger] before[j] == after[p as int];
        let id = v[p].1 as u32;
        assert(v[p as int].1 == ids@[j] as u64);
        out.push(id);
        p = p + 1;
    }
    assert forall|a: int, b: int| 0 <= a < b < out@.len() implies pair_lt(
        (key@[out@[a] as int], out@[a] as u64),
        (key@[out@[b] as int], out@[b] as u64),
    ) by {
        assert(pair_le(after[a], after[b]));
        assert(after[a] != after[b]);
    }
    assert(out@.no_duplicates()) by {
        assert forall|a: int, b: int| 0 <= a < out@.len() && 0 <= b < out@.len() && a != b implies out@[a]
            != out@[b] by {
            if out@[a] == out@[b] {
                assert(after[a] == after[b]);
            }
        }
    }
    assert forall|x: u32| #[trigger] out@.contains(x) <==> ids@.contains(x) by {
        if out@.contains(x) {
            let q = choose|q: int| 0 <= q < out@.len() && out@[q] == x;
            assert(is_in(before, after[q]));
            let j = choose|j: int| 0 <= j < before.len() && #[trigger] before[j] == after[q];
            assert(ids@[j] == x);
        }
        if ids@.contains(x) {
            let j = choose|j: int| 0 <= j < ids@.len() && ids@[j] == x;
            assert(before.contains(before[j]));
            assert(before.to_multiset().count(before[j]) > 0);
            assert(after.contains(before[j]));
            let q = choose|q: int| 0 <= q < after.len() && after[q] == before[j];
            assert(out@[q] == x);
        }
    }
    out
}

/// The position of each id in `order`, or `u32::MAX` for ids it does not hold.
pub fn positions(order: &Vec<u32>, k: usize) -> (rank: Vec<u32>)
    requires
        order@.no_duplicates(),
        order@.len() < u32::MAX,
        k <= u32::MAX,
        forall|p: int| 0 <= p < order@.len() ==> (#[trigger] order@[p]) < k,
    ensures
        rank@.len() == k,
        forall|p: int| 0 <= p < order@.len() ==> #[trigger] rank@[order@[p] as int] == p,
        forall|x: int| 0 <= x < k ==> (#[trigger] rank@[x] == u32::MAX <==> !order@.contains(x as u32)),
        forall|x: int| 0 <= x < k ==> (#[trigger] rank@[x] == u32::MAX || rank@[x] < order@.len()),
{
    let mut rank: Vec<u32> = Vec::new();
    let mut c: usize = 0;
    while c < k
        invariant
            c <= k,
            rank@.len() == c,
            forall|x: int| 0 <= x < c ==> rank@[x] == u32::MAX,
        decreases k - c,
    {
        rank.push(u32::MAX);
        c = c + 1;
    }
    let mut r: usize = 0;
    while r < order.len()
        invariant
            r <= order@.len(),
            order@.len() < u32::MAX,
            k <= u32::MAX,
            order@.no_duplicates(),
            rank@.len() == k,
            forall|p: int| 0 <= p < order@.len() ==> (#[trigger] order@[p]) < k,
            forall|x: int|
                0 <= x < k ==> (#[trigger] rank@[x] == u32::MAX <==> !order@.subrange(0, r as int).contains(
                    x as u32,
                )),
            forall|x: int| 0 <= x < k ==> (#[trigger] rank@[x] == u32::MAX || rank@[x] < r),
            forall|p: int| 0 <= p < r ==> #[trigger] rank@[order@[p] as int] == p,
        decreases order@.len() - r,
    {
        let c = order[r] as usize;
        let ghost before = rank@;
        rank.set(c, r as u32);
        assert forall|x: int|
            0 <= x < k implies (#[trigger] rank@[x] == u32::MAX <==> !order@.subrange(0, r + 1).contains(
                x as u32,
            )) by {
            if x == c {
                assert(order@.subrange(0, r + 1)[r as int] == x as u32);
            } else {
                assert(rank@[x] == before[x]);
                if order@.subrange(0, r + 1).contains(x as u32) {
                    let p = choose|p: int| 0 <= p < r + 1 && #[trigger] order@.subrange(0, r + 1)[p] == x as u32;
                    assert(order@[p] == x as u32);
                    assert(order@[r as int] == c as u32);
                    assert(p != r);
                    assert(order@.subrange(0, r as int)[p] == x as u32);
                }
                if order@.subrange(0, r as int).contains(x as u32) {
                    let p = choose|p: int| 0 <= p < r && #[trigger] order@.subrange(0, r as int)[p] == x as u32;
                    assert(order@.subrange(0, r + 1)[p] == x as u32);
                }
            }
        }
        assert forall|p: int| 0 <= p < r + 1 implies #[trigger] rank@[order@[p] as int] == p by {
            if p < r {
                assert(order@[p] != order@[r as int]);
                assert(before[order@[p] as int] == p);
            }
        }
        r = r + 1;
    }
    assert(order@.subrange(0, order@.len() as int) =~= order@);
    rank
}

/// The values of `v` in ascending order, each once.
pub fn sorted_set(v: &Vec<u32>) -> (out: Vec<u32>)
    ensures
        forall|a: int, b: int| 0 <= a < b < out@.len() ==> #[trigger] out@[a] < #[trigger] out@[b],
        forall|x: u32| #[trigger] out@.contains(x) <==> v@.contains(x),
{
    broadcast use vstd::seq_lib::group_to_multiset_ensures;

    let mut w: Vec<(u64, u64)> = Vec::new();
    let mut i: usize = 0;
    while i < v.len()
        invariant
            i <= v@.len(),
            w@.len() == i,
            forall|j: int| 0 <= j < i ==> #[trigger] w@[j] == (v@[j] as u64, 0u64),
        decreases v@.len() - i,
    {
        w.push((v[i] as u64, 0));
        i = i + 1;
    }
    let ghost before = w@;
    sort_pairs(&mut w);
    let ghost after = w@;
    assert(after.len() == before.len()) by {
        assert(after.to_multiset().len() == before.to_multiset().len());
    }
    assert forall|q: int| 0 <= q < after.len() implies before.contains(#[trigger] after[q]) by {
        assert(after.contains(after[q]));
        assert(after.to_multiset().count(after[q]) > 0);
    }
    let mut out: Vec<u32> = Vec::new();
    let mut p: usize = 0;
    while p < w.len()
        invariant
            w@ == after,
            p <= after.len(),
            after.len() == before.len(),
            before.len() == v@.len(),
            sorted_pairs(after),
            forall|j: int| 0 <= j < v@.len() ==> #[trigger] before[j] == (v@[j] as u64, 0u64),
            forall|q: int| 0 <= q < after.len() ==> before.contains(#[trigger] after[q]),
            forall|a: int, b: int| 0 <= a < b < out@.len() ==> #[trigger] out@[a] < #[trigger] out@[b],
            forall|a: int| 0 <= a < out@.len() ==> exists|q: int| 0 <= q < p && #[trigger] out@[a] as u64 == after[q].0,
            forall|q: int| 0 <= q < p ==> out@.contains(#[trigger] after[q].0 as u32),
            p > 0 ==> out@.len() > 0 && out@.last() as u64 == after[p - 1].0,
        decreases after.len() - p,
    {
        let ghost j = choose|j: int| 0 <= j < before.len() && before[j] == after[p as int];
        let x = w[p].0 as u32;
        assert(after[p as int].0 == v@[j] as u64);
        if out.len() == 0 || out[out.len() - 1] != x {
            if out.len() > 0 {
                assert(pair_le(after[p - 1], after[p as int]));
            }
            let ghost prev = out@;
            out.push(x);
            assert forall|q: int| 0 <= q < p + 1 implies out@.contains(#[trigger] after[q].0 as u32) by {
                if q < p {
                    let a = choose|a: int| 0 <= a < prev.len() && prev[a] == after[q].0 as u32;
                    assert(out@[a] == prev[a]);
                } else {
                    assert(out@[prev.len() as int] == x);
                }
            }
            assert forall|a: int| 0 <= a < out@.len() implies exists|q: int| 0 <= q < p + 1 && #[trigger] out@[a] as u64 == after[q].0 by {
                if a < prev.len() {
                    assert(out@[a] == prev[a]);
                } else {
                    assert(out@[a] as u64 == after[p as int].0);
                }
            }
        } else {
            assert forall|q: int| 0 <= q < p + 1 implies out@.contains(#[trigger] after[q].0 as u32) by {
                if q == p {
                    assert(out@[out@.len() - 1] == x);
                }
            }
        }
        p = p + 1;
    }
    assert forall|x: u32| #[trigger] out@.contains(x) <==> v@.contains(x) by {
        if out@.contains(x) {
            let a = choose|a: int| 0 <= a < out@.len() && out@[a] == x;
            let q = choose|q: int| 0 <= q < after.len() && #[trigger] out@[a] as u64 == after[q].0;
            let j = choose|j: int| 0 <= j < before.len() && before[j] == after[q];
            assert(v@[j] == x);
        }
        if v@.contains(x) {
            let j = choose|j: int| 0 <= j < v@.len() && v@[j] == x;
            assert(before.contains(before[j]));
            assert(before.to_multiset().count(before[j]) > 0);
            assert(after.contains(before[j]));
            let q = choose|q: int| 0 <= q < after.len() && after[q] == before[j];
            assert(out@.contains(after[q].0 as u32));
        }
    }
    out
}

} // verus!
