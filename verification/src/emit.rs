use std::collections::BTreeMap;

use vstd::prelude::*;

use crate::csr::{link_part, link_row, links_within, runs_of, runs_ok, Csr};
use crate::communities::occurrences;
use crate::pairs::{pair_key, Pairs};
use crate::sorting::{order_by_key, pair_lt, positions, sorted_set};
use crate::tags::{last_position, name_views, Tags};
use crate::territories::RegionInfo;
use crate::text::{chars_of, push_char, string_of};

verus! {

/// Names chosen by hand for the regions and continents that hold a given tag.
pub struct Overrides {
    pub regions: BTreeMap<String, String>,
    pub continents: BTreeMap<String, String>,
}

/// A tag name as the site shows it: underscores read as spaces.
pub open spec fn shown_name(tag: Seq<char>) -> Seq<char> {
    Seq::new(tag.len(), |i: int| if tag[i] == '_' { ' ' } else { tag[i] })
}

/// A tag name with its underscores turned into spaces.
pub fn display_name(tag: &str) -> (out: String)
    ensures
        out@ == shown_name(tag@),
{
    let cs = chars_of(tag);
    let mut out = String::new();
    let mut i: usize = 0;
    while i < cs.len()
        invariant
            i <= cs@.len(),
            cs@ == tag@,
            out@ == shown_name(tag@).take(i as int),
        decreases cs@.len() - i,
    {
        let c = cs[i];
        push_char(&mut out, if c == '_' { ' ' } else { c });
        i = i + 1;
        assert(out@ =~= shown_name(tag@).take(i as int));
    }
    assert(shown_name(tag@).take(cs@.len() as int) =~= shown_name(tag@));
    out
}

/// The values of `src` at `keys`, in the order of the keys.
pub fn gather<T: Copy>(keys: &[u32], src: &[T]) -> (out: Vec<T>)
    requires
        forall|i: int| 0 <= i < keys@.len() ==> (#[trigger] keys@[i]) < src@.len(),
    ensures
        out@.len() == keys@.len(),
        forall|i: int| 0 <= i < keys@.len() ==> #[trigger] out@[i] == src@[keys@[i] as int],
{
    let mut out: Vec<T> = Vec::new();
    let mut i: usize = 0;
    while i < keys.len()
        invariant
            i <= keys@.len(),
            forall|j: int| 0 <= j < keys@.len() ==> (#[trigger] keys@[j]) < src@.len(),
            out@.len() == i,
            forall|j: int| 0 <= j < i ==> #[trigger] out@[j] == src@[keys@[j] as int],
        decreases keys@.len() - i,
    {
        out.push(src[keys[i] as usize]);
        i = i + 1;
    }
    out
}

/// The first edge, among the first `m`, that touches node `v`, looking from
/// edge `k` on.
pub open spec fn first_edge(a: Seq<u32>, b: Seq<u32>, m: int, v: int, k: int) -> Option<int>
    decreases m - k,
{
    if k < 0 || k >= m {
        None
    } else if a[k] == v || b[k] == v {
        Some(k)
    } else {
        first_edge(a, b, m, v, k + 1)
    }
}

/// Both ends of edge `k` have posts of their own.
pub open spec fn edge_shown(a: Seq<u32>, b: Seq<u32>, post_counts: Seq<u32>, k: int) -> bool {
    post_counts[a[k] as int] > 0 && post_counts[b[k] as int] > 0
}

/// Whether node `i` brings its first edge into the base scene: the edge is
/// shown and was not already brought by its other end, a lower node.
pub open spec fn brings(a: Seq<u32>, b: Seq<u32>, post_counts: Seq<u32>, m: int, i: int) -> bool {
    match first_edge(a, b, m, i, 0) {
        None => false,
        Some(k) => {
            let other = if a[k] == i { b[k] as int } else { a[k] as int };
            !(other < i && first_edge(a, b, m, other, 0) == Some(k)) && edge_shown(a, b, post_counts, k)
        },
    }
}

/// The first edges of nodes `0..i` that make the base scene, node by node.
pub open spec fn first_pass(a: Seq<u32>, b: Seq<u32>, post_counts: Seq<u32>, m: int, i: int) -> Seq<u32>
    decreases i,
{
    if i <= 0 {
        seq![]
    } else {
        let rest = first_pass(a, b, post_counts, m, i - 1);
        if brings(a, b, post_counts, m, i - 1) {
            rest.push(first_edge(a, b, m, i - 1, 0)->0 as u32)
        } else {
            rest
        }
    }
}

/// The shown edges among `0..k` that the first pass left out, in order.
pub open spec fn second_pass(a: Seq<u32>, b: Seq<u32>, post_counts: Seq<u32>, first: Seq<u32>, k: int) -> Seq<u32>
    decreases k,
{
    if k <= 0 {
        seq![]
    } else {
        let rest = second_pass(a, b, post_counts, first, k - 1);
        if !first.contains((k - 1) as u32) && edge_shown(a, b, post_counts, k - 1) {
            rest.push((k - 1) as u32)
        } else {
            rest
        }
    }
}

/// The edges of the base scene before sorting: each node's first edge, node by
/// node, then the other shown edges in order, up to the budget.
pub open spec fn scene_picks(a: Seq<u32>, b: Seq<u32>, post_counts: Seq<u32>, budget: int) -> Seq<u32> {
    let m = if a.len() <= b.len() { a.len() as int } else { b.len() as int };
    let first = first_pass(a, b, post_counts, m, post_counts.len() as int);
    (first + second_pass(a, b, post_counts, first, m)).take(
        if budget < (first + second_pass(a, b, post_counts, first, m)).len() {
            budget
        } else {
            (first + second_pass(a, b, post_counts, first, m)).len() as int
        },
    )
}

proof fn lemma_first_pass_grows(a: Seq<u32>, b: Seq<u32>, pc: Seq<u32>, m: int, i: int, j: int)
    requires
        0 <= i <= j,
    ensures
        first_pass(a, b, pc, m, j).len() >= first_pass(a, b, pc, m, i).len(),
        first_pass(a, b, pc, m, j).take(first_pass(a, b, pc, m, i).len() as int) == first_pass(a, b, pc, m, i),
    decreases j - i,
{
    if i < j {
        lemma_first_pass_grows(a, b, pc, m, i, j - 1);
        let p = first_pass(a, b, pc, m, j - 1);
        let q = first_pass(a, b, pc, m, i);
        assert(first_pass(a, b, pc, m, j).take(p.len() as int) =~= p);
        assert(first_pass(a, b, pc, m, j).take(q.len() as int) =~= p.take(q.len() as int));
    } else {
        assert(first_pass(a, b, pc, m, j).take(first_pass(a, b, pc, m, j).len() as int) =~= first_pass(
            a,
            b,
            pc,
            m,
            j,
        ));
    }
}

proof fn lemma_second_pass_grows(a: Seq<u32>, b: Seq<u32>, pc: Seq<u32>, f: Seq<u32>, i: int, j: int)
    requires
        0 <= i <= j,
    ensures
        second_pass(a, b, pc, f, j).len() >= second_pass(a, b, pc, f, i).len(),
        second_pass(a, b, pc, f, j).take(second_pass(a, b, pc, f, i).len() as int) == second_pass(a, b, pc, f, i),
    decreases j - i,
{
    if i < j {
        lemma_second_pass_grows(a, b, pc, f, i, j - 1);
        let p = second_pass(a, b, pc, f, j - 1);
        let q = second_pass(a, b, pc, f, i);
        assert(second_pass(a, b, pc, f, j).take(p.len() as int) =~= p);
        assert(second_pass(a, b, pc, f, j).take(q.len() as int) =~= p.take(q.len() as int));
    } else {
        assert(second_pass(a, b, pc, f, j).take(second_pass(a, b, pc, f, j).len() as int) =~= second_pass(
            a,
            b,
            pc,
            f,
            j,
        ));
    }
}

/// The edges of the base scene, the ones the site draws before any zoom: each
/// node's first edge in node order, then the other edges in order, up to
/// `budget`, only edges whose ends both have posts, in ascending order.
pub fn base_scene(a: &[u32], b: &[u32], post_counts: &[u32], budget: usize) -> (out: Vec<u32>)
    requires
        a@.len() <= u32::MAX,
        forall|k: int| 0 <= k < a@.len() && k < b@.len() ==> (#[trigger] a@[k]) < post_counts@.len(),
        forall|k: int| 0 <= k < a@.len() && k < b@.len() ==> (#[trigger] b@[k]) < post_counts@.len(),
    ensures
        forall|x: int, y: int| 0 <= x < y < out@.len() ==> #[trigger] out@[x] < #[trigger] out@[y],
        forall|e: u32| #[trigger] out@.contains(e) <==> scene_picks(a@, b@, post_counts@, budget as int).contains(e),
{
    let n = post_counts.len();
    let m = if a.len() <= b.len() {
        a.len()
    } else {
        b.len()
    };
    let ghost av = a@;
    let ghost bv = b@;
    let ghost pc = post_counts@;
    // the first edge at each node
    let mut best: Vec<u32> = Vec::new();
    let mut v: usize = 0;
    while v < n
        invariant
            v <= n == pc.len(),
            best@.len() == v,
            forall|j: int| 0 <= j < v ==> #[trigger] best@[j] == u32::MAX,
        decreases n - v,
    {
        best.push(u32::MAX);
        v = v + 1;
    }
    let mut k: usize = 0;
    while k < m
        invariant
            k <= m <= av.len(),
            m <= bv.len(),
            m == (if av.len() <= bv.len() { av.len() } else { bv.len() }),
            m <= u32::MAX,
            av == a@,
            bv == b@,
            best@.len() == n == pc.len(),
            forall|j: int| 0 <= j < m ==> (#[trigger] av[j]) < n && bv[j] < n,
            forall|j: int|
                0 <= j < n ==> (#[trigger] best@[j] == u32::MAX <==> first_edge(av, bv, k as int, j, 0) is None),
            forall|j: int|
                0 <= j < n && #[trigger] best@[j] != u32::MAX ==> first_edge(av, bv, k as int, j, 0) == Some(
                    best@[j] as int,
                ),
        decreases m - k,
    {
        assert(av[k as int] < n && bv[k as int] < n);
        let x = a[k] as usize;
        let y = b[k] as usize;
        proof {
            assert forall|j: int| 0 <= j < n implies first_edge(av, bv, k + 1, j, 0) == if first_edge(
                av,
                bv,
                k as int,
                j,
                0,
            ) is Some {
                first_edge(av, bv, k as int, j, 0)
            } else if av[k as int] == j || bv[k as int] == j {
                Some(k as int)
            } else {
                None
            } by {
                lemma_first_edge_extend(av, bv, k as int, j, 0);
            }
        }
        if best[x] == u32::MAX {
            best.set(x, k as u32);
        }
        if best[y] == u32::MAX {
            best.set(y, k as u32);
        }
        k = k + 1;
    }
    let mut chosen: Vec<u32> = Vec::new();
    let mut in_base: Vec<bool> = Vec::new();
    let mut q: usize = 0;
    while q < m
        invariant
            q <= m,
            in_base@.len() == q,
            forall|j: int| 0 <= j < q ==> !(#[trigger] in_base@[j]),
        decreases m - q,
    {
        in_base.push(false);
        q = q + 1;
    }
    let ghost first_all = first_pass(av, bv, pc, m as int, n as int);
    let mut i: usize = 0;
    while i < n
        invariant
            i <= n == pc.len(),
            m <= av.len() && m <= bv.len(),
            m == (if av.len() <= bv.len() { av.len() } else { bv.len() }),
            m <= u32::MAX,
            av == a@,
            bv == b@,
            pc == post_counts@,
            best@.len() == n,
            in_base@.len() == m,
            first_all == first_pass(av, bv, pc, m as int, n as int),
            forall|j: int| 0 <= j < m ==> (#[trigger] av[j]) < n && bv[j] < n,
            forall|j: int|
                0 <= j < n ==> (#[trigger] best@[j] == u32::MAX <==> first_edge(av, bv, m as int, j, 0) is None),
            forall|j: int|
                0 <= j < n && #[trigger] best@[j] != u32::MAX ==> first_edge(av, bv, m as int, j, 0) == Some(
                    best@[j] as int,
                ),
            chosen@ == first_pass(av, bv, pc, m as int, i as int),
            chosen@.len() <= budget,
            forall|e: int| 0 <= e < m ==> (#[trigger] in_base@[e] <==> chosen@.contains(e as u32)),
        ensures
            i == n || chosen@.len() >= budget,
        decreases n - i,
    {
        if chosen.len() >= budget {
            break;
        }
        let kb = best[i];
        if kb != u32::MAX {
            let ghost fe = first_edge(av, bv, m as int, i as int, 0);
            proof {
                lemma_first_edge_in(av, bv, m as int, i as int, 0);
            }
            let ke = kb as usize;
            let (x, y) = (a[ke], b[ke]);
            let other = if x as usize == i {
                y
            } else {
                x
            };
            let seen = (other as usize) < i && best[other as usize] == kb;
            let shown = post_counts[x as usize] > 0 && post_counts[y as usize] > 0;
            proof {
                if (other as usize) < i {
                    if best@[other as int] == kb {
                        assert(first_edge(av, bv, m as int, other as int, 0) == Some(kb as int));
                    } else if first_edge(av, bv, m as int, other as int, 0) == Some(kb as int) {
                        assert(best@[other as int] != u32::MAX);
                    }
                }
                assert(brings(av, bv, pc, m as int, i as int) == (!seen && shown));
            }
            if !seen && shown {
                let ghost before = chosen@;
                chosen.push(kb);
                in_base.set(ke, true);
                proof {
                    assert forall|e: int| 0 <= e < m implies (#[trigger] in_base@[e] <==> chosen@.contains(
                        e as u32,
                    )) by {
                        if chosen@.contains(e as u32) && e != ke {
                            let p = choose|p: int| 0 <= p < chosen@.len() && chosen@[p] == e as u32;
                            assert(p < before.len());
                            assert(before[p] == e as u32);
                        }
                        if e == ke {
                            assert(chosen@[before.len() as int] == e as u32);
                        }
                        if e != ke && before.contains(e as u32) {
                            let p = choose|p: int| 0 <= p < before.len() && before[p] == e as u32;
                            assert(chosen@[p] == e as u32);
                        }
                    }
                }
            }
        } else {
            assert(!brings(av, bv, pc, m as int, i as int));
        }
        i = i + 1;
    }
    let ghost first = chosen@;
    proof {
        lemma_first_pass_grows(av, bv, pc, m as int, i as int, n as int);
    }
    let ghost full = first_all + second_pass(av, bv, pc, first_all, m as int);
    let ghost cap = if budget < full.len() {
        budget as int
    } else {
        full.len() as int
    };
    if chosen.len() < budget {
        assert(first == first_all) by {
            assert(first_all.take(first.len() as int) == first);
            assert(i == n);
            assert(first_all.take(first_all.len() as int) =~= first_all);
        }
        assert(first_all + second_pass(av, bv, pc, first_all, 0) =~= first_all);
        let mut k: usize = 0;
        while k < m
            invariant
                k <= m,
                m <= av.len() && m <= bv.len(),
                av == a@,
                bv == b@,
                pc == post_counts@,
                in_base@.len() == m,
                forall|j: int| 0 <= j < m ==> (#[trigger] av[j]) < pc.len() && bv[j] < pc.len(),
                forall|e: int| k <= e < m ==> (#[trigger] in_base@[e] <==> first_all.contains(e as u32)),
                chosen@ == first_all + second_pass(av, bv, pc, first_all, k as int),
                chosen@.len() <= budget,
            ensures
                k == m || chosen@.len() >= budget,
            decreases m - k,
        {
            if chosen.len() >= budget {
                break;
            }
            let x = a[k];
            let y = b[k];
            assert(av[k as int] < pc.len() && bv[k as int] < pc.len());
            if !in_base[k] && post_counts[x as usize] > 0 && post_counts[y as usize] > 0 {
                let ghost before = chosen@;
                chosen.push(k as u32);
                in_base.set(k, true);
                assert(chosen@ =~= first_all + second_pass(av, bv, pc, first_all, k + 1));
            }
            k = k + 1;
        }
        proof {
            lemma_second_pass_grows(av, bv, pc, first_all, k as int, m as int);
            if k < m {
                assert(chosen@.len() == budget);
                assert(full.take(cap) =~= chosen@);
            } else {
                assert(chosen@ == full);
                assert(full.take(cap) =~= chosen@);
            }
        }
    } else {
        proof {
            assert(chosen@.len() == budget);
            assert(first_all.take(budget as int) == chosen@);
            assert(full.take(cap) =~= chosen@);
        }
    }
    assert(chosen@ == scene_picks(av, bv, pc, budget as int));
    let out = sorted_set(&chosen);
    out
}

proof fn lemma_first_edge_bound(a: Seq<u32>, b: Seq<u32>, m: int, v: int, k: int)
    ensures
        first_edge(a, b, m, v, k) matches Some(e) ==> k <= e < m,
    decreases m - k,
{
    if 0 <= k < m && !(a[k] == v || b[k] == v) {
        lemma_first_edge_bound(a, b, m, v, k + 1);
    }
}

proof fn lemma_first_pass_members(a: Seq<u32>, b: Seq<u32>, pc: Seq<u32>, m: int, i: int)
    requires
        0 <= m <= u32::MAX,
    ensures
        forall|x: u32| #[trigger]
            first_pass(a, b, pc, m, i).contains(x) ==> x < m && edge_shown(a, b, pc, x as int),
        forall|v: int|
            0 <= v < i && #[trigger] brings(a, b, pc, m, v) ==> first_pass(a, b, pc, m, i).contains(
                first_edge(a, b, m, v, 0)->0 as u32,
            ),
    decreases i,
{
    if i > 0 {
        lemma_first_pass_members(a, b, pc, m, i - 1);
        let rest = first_pass(a, b, pc, m, i - 1);
        let now = first_pass(a, b, pc, m, i);
        lemma_first_edge_bound(a, b, m, i - 1, 0);
        assert forall|x: u32| #[trigger] now.contains(x) implies x < m && edge_shown(a, b, pc, x as int) by {
            let y = choose|y: int| 0 <= y < now.len() && now[y] == x;
            if y < rest.len() {
                assert(rest[y] == x);
                assert(rest.contains(x));
            }
        }
        assert forall|v: int| 0 <= v < i && #[trigger] brings(a, b, pc, m, v) implies now.contains(
            first_edge(a, b, m, v, 0)->0 as u32,
        ) by {
            if v < i - 1 {
                let e = first_edge(a, b, m, v, 0)->0 as u32;
                let y = choose|y: int| 0 <= y < rest.len() && rest[y] == e;
                assert(now[y] == e);
            } else {
                assert(now[rest.len() as int] == first_edge(a, b, m, v, 0)->0 as u32);
            }
        }
    }
}

proof fn lemma_second_pass_members(a: Seq<u32>, b: Seq<u32>, pc: Seq<u32>, f: Seq<u32>, k: int)
    requires
        k <= u32::MAX + 1,
    ensures
        forall|x: u32| #[trigger]
            second_pass(a, b, pc, f, k).contains(x) ==> x < k && edge_shown(a, b, pc, x as int),
    decreases k,
{
    if k > 0 {
        lemma_second_pass_members(a, b, pc, f, k - 1);
        let rest = second_pass(a, b, pc, f, k - 1);
        let now = second_pass(a, b, pc, f, k);
        assert forall|x: u32| #[trigger] now.contains(x) implies x < k && edge_shown(a, b, pc, x as int) by {
            let y = choose|y: int| 0 <= y < now.len() && now[y] == x;
            if y < rest.len() {
                assert(rest[y] == x);
                assert(rest.contains(x));
            }
        }
    }
}

/// The base scene holds no more edges than the budget, and only edges among
/// the first `min(|a|, |b|)` whose two ends both have posts. Where the budget
/// leaves room for every node's first edge, each node that brings its first
/// edge into the scene finds it there.
pub proof fn lemma_base_scene_law(a: Seq<u32>, b: Seq<u32>, post_counts: Seq<u32>, budget: int)
    requires
        a.len() <= u32::MAX,
        0 <= budget,
    ensures
        scene_picks(a, b, post_counts, budget).len() <= budget,
        forall|x: u32| #[trigger]
            scene_picks(a, b, post_counts, budget).contains(x) ==> x < a.len() && x < b.len()
                && edge_shown(a, b, post_counts, x as int),
        ({
            let m = if a.len() <= b.len() { a.len() as int } else { b.len() as int };
            first_pass(a, b, post_counts, m, post_counts.len() as int).len() <= budget ==> forall|v: int|
                0 <= v < post_counts.len() && #[trigger] brings(a, b, post_counts, m, v) ==> scene_picks(
                    a,
                    b,
                    post_counts,
                    budget,
                ).contains(first_edge(a, b, m, v, 0)->0 as u32)
        }),
{
    let m = if a.len() <= b.len() { a.len() as int } else { b.len() as int };
    let first = first_pass(a, b, post_counts, m, post_counts.len() as int);
    let second = second_pass(a, b, post_counts, first, m);
    let whole = first + second;
    let picks = scene_picks(a, b, post_counts, budget);
    lemma_first_pass_members(a, b, post_counts, m, post_counts.len() as int);
    lemma_second_pass_members(a, b, post_counts, first, m);
    assert(picks == whole.take(if budget < whole.len() { budget } else { whole.len() as int }));
    assert forall|x: u32| #[trigger] picks.contains(x) implies x < a.len() && x < b.len() && edge_shown(
        a,
        b,
        post_counts,
        x as int,
    ) by {
        let y = choose|y: int| 0 <= y < picks.len() && picks[y] == x;
        assert(whole[y] == x);
        if y < first.len() {
            assert(first[y] == x);
            assert(first.contains(x));
        } else {
            assert(second[y - first.len()] == x);
            assert(second.contains(x));
        }
    }
    if first.len() <= budget {
        assert forall|v: int| 0 <= v < post_counts.len() && #[trigger] brings(a, b, post_counts, m, v) implies picks.contains(
            first_edge(a, b, m, v, 0)->0 as u32,
        ) by {
            let e = first_edge(a, b, m, v, 0)->0 as u32;
            assert(first.contains(e));
            let y = choose|y: int| 0 <= y < first.len() && first[y] == e;
            assert(picks[y] == e);
        }
    }
}


proof fn lemma_first_edge_extend(a: Seq<u32>, b: Seq<u32>, k: int, v: int, from: int)
    requires
        0 <= from <= k,
        k < a.len(),
        k < b.len(),
    ensures
        first_edge(a, b, k + 1, v, from) == if first_edge(a, b, k, v, from) is Some {
            first_edge(a, b, k, v, from)
        } else if a[k] == v || b[k] == v {
            Some(k)
        } else {
            None
        },
    decreases k - from,
{
    if from < k && !(a[from] == v || b[from] == v) {
        lemma_first_edge_extend(a, b, k, v, from + 1);
    } else if from == k {
        assert(first_edge(a, b, k + 1, v, k + 1) is None);
    }
}

proof fn lemma_first_edge_in(a: Seq<u32>, b: Seq<u32>, m: int, v: int, from: int)
    ensures
        first_edge(a, b, m, v, from) matches Some(k) ==> from <= k < m && (a[k] == v || b[k] == v),
    decreases m - from,
{
    if from >= 0 && from < m && !(a[from] == v || b[from] == v) {
        lemma_first_edge_in(a, b, m, v, from + 1);
    }
}

/// The year cells as the site stores them: each count that fits a `u16`, else
/// `u16::MAX` with the cell and its count listed apart.
pub open spec fn year_row(v: u32) -> u16 {
    if v <= u16::MAX {
        v as u16
    } else {
        u16::MAX
    }
}

/// The cells whose counts do not fit a `u16`, as flat (cell, count) pairs.
pub open spec fn year_overflow(cells: Seq<u32>) -> Seq<u32>
    decreases cells.len(),
{
    if cells.len() == 0 {
        seq![]
    } else if cells.last() <= u16::MAX {
        year_overflow(cells.drop_last())
    } else {
        year_overflow(cells.drop_last()) + seq![(cells.len() - 1) as u32, cells.last()]
    }
}

/// Splits the per-node year counts into `u16` cells and the list of cells
/// that overflow them.
pub fn year_cells(node_year: &[u32]) -> (r: (Vec<u16>, Vec<u32>))
    requires
        node_year@.len() <= u32::MAX,
    ensures
        r.0@ == node_year@.map_values(|v: u32| year_row(v)),
        r.1@ == year_overflow(node_year@),
{
    let mut rows: Vec<u16> = Vec::new();
    let mut over: Vec<u32> = Vec::new();
    let mut i: usize = 0;
    while i < node_year.len()
        invariant
            i <= node_year@.len() <= u32::MAX,
            rows@ == node_year@.take(i as int).map_values(|v: u32| year_row(v)),
            over@ == year_overflow(node_year@.take(i as int)),
        decreases node_year@.len() - i,
    {
        let v = node_year[i];
        assert(node_year@.take(i + 1).drop_last() =~= node_year@.take(i as int));
        assert(node_year@.take(i + 1).last() == v);
        if v <= 65535 {
            rows.push(v as u16);
        } else {
            rows.push(u16::MAX);
            over.push(i as u32);
            over.push(v);
            assert(over@ =~= year_overflow(node_year@.take(i as int)) + seq![i as u32, v]);
        }
        assert(rows@ =~= node_year@.take(i + 1).map_values(|v: u32| year_row(v)));
        i = i + 1;
    }
    assert(node_year@.take(node_year@.len() as int) =~= node_year@);
    (rows, over)
}

/// A region or continent as the site lists it: its shown name, the tags that
/// name it and its node count.
pub struct NamedCommunity {
    pub name: String,
    pub tags: Vec<String>,
    pub size: usize,
}

/// The community an override reaches: that of the node its member names, if
/// the member is a node.
pub open spec fn override_target(names: Seq<Seq<char>>, membership: Seq<u32>, member: Seq<char>) -> Option<int> {
    match last_position(names, member) {
        Some(i) => if i < membership.len() {
            Some(membership[i] as int)
        } else {
            None
        },
        None => None,
    }
}

/// The name the last of the first `upto` overrides that reaches community `c`
/// gives it.
pub open spec fn override_for(
    names: Seq<Seq<char>>,
    membership: Seq<u32>,
    overrides: Seq<(String, String)>,
    c: int,
    upto: int,
) -> Option<Seq<char>>
    decreases upto,
{
    if upto <= 0 {
        None
    } else if override_target(names, membership, overrides[upto - 1].0@) == Some(c) {
        Some(overrides[upto - 1].1@)
    } else {
        override_for(names, membership, overrides, c, upto - 1)
    }
}

/// A community's own name: its first naming tag, shown with spaces, or
/// `unnamed` when no tag names it.
pub open spec fn default_name(names: Seq<Seq<char>>, name_tags: Seq<u32>) -> Seq<char> {
    if name_tags.len() == 0 {
        "unnamed"@
    } else {
        shown_name(names[name_tags[0] as int])
    }
}

/// The overrides among the first `upto` that reach no node, by position.
pub open spec fn ignored_overrides(
    names: Seq<Seq<char>>,
    membership: Seq<u32>,
    overrides: Seq<(String, String)>,
    upto: int,
) -> Seq<usize>
    decreases upto,
{
    if upto <= 0 {
        seq![]
    } else if override_target(names, membership, overrides[upto - 1].0@) is None {
        ignored_overrides(names, membership, overrides, upto - 1).push((upto - 1) as usize)
    } else {
        ignored_overrides(names, membership, overrides, upto - 1)
    }
}

/// Names the communities for the site: each by its first naming tag unless an
/// override, given as (member tag, name) in order, reaches it through the
/// community of its member, the last such override winning. Also returns the
/// positions of the overrides whose member is not a node.
pub fn named(meta: &[RegionInfo], tags: &Tags, membership: &[u32], overrides: &[(String, String)]) -> (r: (
    Vec<NamedCommunity>,
    Vec<usize>,
))
    requires
        tags.indexed(),
        forall|c: int, t: int|
            0 <= c < meta@.len() && 0 <= t < meta@[c].name_tags@.len() ==> (#[trigger] meta@[c].name_tags@[t])
                < tags.names@.len(),
        forall|i: int| 0 <= i < membership@.len() ==> (#[trigger] membership@[i]) < meta@.len(),
    ensures
        r.0@.len() == meta@.len(),
        forall|c: int| 0 <= c < meta@.len() ==> (#[trigger] r.0@[c]).size == meta@[c].size,
        forall|c: int|
            0 <= c < meta@.len() ==> (#[trigger] r.0@[c]).tags@.len() == meta@[c].name_tags@.len() && forall|t: int|
                0 <= t < meta@[c].name_tags@.len() ==> (#[trigger] r.0@[c].tags@[t])@ == tags.names@[meta@[c].name_tags@[t] as int]@,
        forall|c: int|
            0 <= c < meta@.len() ==> (#[trigger] r.0@[c]).name@ == match override_for(
                name_views(tags.names@),
                membership@,
                overrides@,
                c,
                overrides@.len() as int,
            ) {
                Some(n) => n,
                None => default_name(name_views(tags.names@), meta@[c].name_tags@),
            },
        r.1@ == ignored_overrides(name_views(tags.names@), membership@, overrides@, overrides@.len() as int),
{
    let ghost views = name_views(tags.names@);
    let k = meta.len();
    let mut names: Vec<String> = Vec::new();
    let mut c: usize = 0;
    while c < k
        invariant
            c <= k == meta@.len(),
            views == name_views(tags.names@),
            forall|c: int, t: int|
                0 <= c < meta@.len() && 0 <= t < meta@[c].name_tags@.len() ==> (#[trigger] meta@[c].name_tags@[t])
                    < tags.names@.len(),
            names@.len() == c,
            forall|d: int| 0 <= d < c ==> (#[trigger] names@[d])@ == default_name(views, meta@[d].name_tags@),
        decreases k - c,
    {
        let own = &meta[c].name_tags;
        if own.len() == 0 {
            let cs = chars_of("unnamed");
            names.push(string_of(&cs, 0, cs.len()));
            assert(cs@.subrange(0, cs@.len() as int) =~= "unnamed"@);
        } else {
            let first = own[0] as usize;
            assert(meta@[c as int].name_tags@[0] < tags.names@.len());
            names.push(display_name(tags.names[first].as_str()));
        }
        c = c + 1;
    }
    let mut ignored: Vec<usize> = Vec::new();
    let mut o: usize = 0;
    while o < overrides.len()
        invariant
            o <= overrides@.len(),
            k == meta@.len(),
            tags.indexed(),
            views == name_views(tags.names@),
            forall|i: int| 0 <= i < membership@.len() ==> (#[trigger] membership@[i]) < meta@.len(),
            names@.len() == k,
            forall|d: int|
                0 <= d < k ==> (#[trigger] names@[d])@ == match override_for(views, membership@, overrides@, d, o as int) {
                    Some(n) => n,
                    None => default_name(views, meta@[d].name_tags@),
                },
            ignored@ == ignored_overrides(views, membership@, overrides@, o as int),
        decreases overrides@.len() - o,
    {
        let member = &overrides[o].0;
        match tags.index_of(member.as_str()) {
            Some(i) if (i as usize) < membership.len() => {
                let target = membership[i as usize] as usize;
                proof {
                    crate::tags::lemma_last_position_in(tags, member@);
                }
                names.set(target, overrides[o].1.clone());
            },
            _ => {
                proof {
                    crate::tags::lemma_last_position_in(tags, member@);
                }
                ignored.push(o);
            },
        }
        o = o + 1;
    }
    let mut out: Vec<NamedCommunity> = Vec::new();
    let mut c: usize = 0;
    while c < k
        invariant
            c <= k == meta@.len(),
            names@.len() == k,
            forall|c: int, t: int|
                0 <= c < meta@.len() && 0 <= t < meta@[c].name_tags@.len() ==> (#[trigger] meta@[c].name_tags@[t])
                    < tags.names@.len(),
            out@.len() == c,
            forall|d: int| 0 <= d < c ==> (#[trigger] out@[d]).name@ == names@[d]@ && out@[d].size == meta@[d].size,
            forall|d: int|
                0 <= d < c ==> (#[trigger] out@[d]).tags@.len() == meta@[d].name_tags@.len() && forall|t: int|
                    0 <= t < meta@[d].name_tags@.len() ==> (#[trigger] out@[d].tags@[t])@
                        == tags.names@[meta@[d].name_tags@[t] as int]@,
        decreases k - c,
    {
        let own = &meta[c].name_tags;
        let mut list: Vec<String> = Vec::new();
        let mut t: usize = 0;
        while t < own.len()
            invariant
                t <= own@.len(),
                c < meta@.len(),
                own@ == meta@[c as int].name_tags@,
                forall|t: int| 0 <= t < own@.len() ==> (#[trigger] own@[t]) < tags.names@.len(),
                list@.len() == t,
                forall|u: int| 0 <= u < t ==> (#[trigger] list@[u])@ == tags.names@[own@[u] as int]@,
            decreases own@.len() - t,
        {
            list.push(tags.names[own[t] as usize].clone());
            t = t + 1;
        }
        out.push(NamedCommunity { name: names[c].clone(), tags: list, size: meta[c].size });
        c = c + 1;
    }
    (out, ignored)
}

/// The edges `(a[j], b[j])` weighing `weight[j]`, in order.
pub open spec fn edge_links(a: Seq<u32>, b: Seq<u32>, weight: Seq<u16>) -> Seq<(u32, u32, u16)> {
    Seq::new(a.len(), |j: int| (a[j], b[j], weight[j]))
}

fn edge_triples(a: &[u32], b: &[u32], weight: &[u16]) -> (out: Vec<(u32, u32, u16)>)
    requires
        a@.len() == b@.len(),
        a@.len() == weight@.len(),
    ensures
        out@ == edge_links(a@, b@, weight@),
{
    let mut out: Vec<(u32, u32, u16)> = Vec::new();
    let mut j: usize = 0;
    while j < a.len()
        invariant
            j <= a@.len(),
            a@.len() == b@.len(),
            a@.len() == weight@.len(),
            out@ == edge_links(a@, b@, weight@).take(j as int),
        decreases a@.len() - j,
    {
        out.push((a[j], b[j], weight[j]));
        j = j + 1;
        assert(out@ =~= edge_links(a@, b@, weight@).take(j as int));
    }
    assert(edge_links(a@, b@, weight@).take(j as int) =~= edge_links(a@, b@, weight@));
    out
}

/// The adjacency of the edge list over `n` nodes, as runs: node `i`'s
/// neighbours and weights stand from `off[i]` up to `off[i + 1]`, one entry
/// at each end of every edge, in edge order.
pub fn adjacency(n: usize, a: &[u32], b: &[u32], weight: &[u16]) -> (r: (Vec<usize>, Vec<u32>, Vec<u16>))
    requires
        a@.len() == b@.len(),
        a@.len() == weight@.len(),
        n < usize::MAX,
        2 * a@.len() <= usize::MAX,
        forall|j: int| 0 <= j < a@.len() ==> (#[trigger] a@[j]) < n && b@[j] < n,
    ensures
        r.0@.len() == n + 1,
        runs_ok(r.0@, r.1@.len() as int),
        r.1@.len() == r.2@.len(),
        r.1@.len() == 2 * a@.len(),
        forall|i: int|
            0 <= i < n ==> #[trigger] runs_of(r.0@, r.1@, r.2@)[i] == link_row(edge_links(a@, b@, weight@), true, i),
{
    let links = edge_triples(a, b, weight);
    assert(links_within(links@, true, n as int)) by {
        assert forall|k: int| 0 <= k < links@.len() implies (#[trigger] links@[k]).0 < n && links@[k].1 < n by {
            assert(a@[k] < n);
        }
    }
    let g = Csr::symmetric(n, &links);
    g.into_runs()
}

/// The offsets of rows `lo` to `hi`, counted from where row `lo` starts and
/// cut to `u32`.
pub fn shard_offsets(off: &[usize], lo: usize, hi: usize) -> (local: Vec<u32>)
    requires
        lo <= hi < off@.len(),
        forall|j: int| lo <= j <= hi ==> off@[lo as int] <= #[trigger] off@[j],
    ensures
        local@.len() == hi - lo + 1,
        forall|j: int| 0 <= j <= hi - lo ==> #[trigger] local@[j] == (off@[lo + j] - off@[lo as int]) as u32,
{
    let start = off[lo];
    let mut local: Vec<u32> = Vec::new();
    let mut j: usize = lo;
    while j <= hi
        invariant
            lo <= j <= hi + 1,
            hi < off@.len(),
            start == off@[lo as int],
            forall|x: int| lo <= x <= hi ==> off@[lo as int] <= #[trigger] off@[x],
            local@.len() == j - lo,
            forall|x: int| 0 <= x < j - lo ==> #[trigger] local@[x] == (off@[lo + x] - off@[lo as int]) as u32,
        decreases hi + 1 - j,
    {
        local.push((off[j] - start) as u32);
        j = j + 1;
    }
    local
}

/// The nodes among the first `x` with at least `floor` posts, in id order.
pub open spec fn kept_nodes(post_counts: Seq<u32>, floor: u32, x: int) -> Seq<u32>
    decreases x,
{
    if x <= 0 {
        Seq::empty()
    } else {
        let rest = kept_nodes(post_counts, floor, x - 1);
        if post_counts[x - 1] >= floor {
            rest.push((x - 1) as u32)
        } else {
            rest
        }
    }
}

/// The row a kept node gets: how many kept nodes come before it.
pub open spec fn kept_row(post_counts: Seq<u32>, floor: u32, x: u32) -> u32 {
    kept_nodes(post_counts, floor, x as int).len() as u32
}

/// The first `j` edges whose ends are both kept, each end given as its row.
pub open spec fn path_links(
    a: Seq<u32>,
    b: Seq<u32>,
    weight: Seq<u16>,
    post_counts: Seq<u32>,
    floor: u32,
    j: int,
) -> Seq<(u32, u32, u16)>
    decreases j,
{
    if j <= 0 {
        Seq::empty()
    } else {
        let rest = path_links(a, b, weight, post_counts, floor, j - 1);
        let (x, y) = (a[j - 1], b[j - 1]);
        if post_counts[x as int] >= floor && post_counts[y as int] >= floor {
            rest.push((kept_row(post_counts, floor, x), kept_row(post_counts, floor, y), weight[j - 1]))
        } else {
            rest
        }
    }
}

/// The edges among the first `j` whose ends both have at least `floor`
/// posts, by position.
pub open spec fn kept_edge_ids(a: Seq<u32>, b: Seq<u32>, post_counts: Seq<u32>, floor: u32, j: int) -> Seq<u32>
    decreases j,
{
    if j <= 0 {
        Seq::empty()
    } else {
        let rest = kept_edge_ids(a, b, post_counts, floor, j - 1);
        if post_counts[a[j - 1] as int] >= floor && post_counts[b[j - 1] as int] >= floor {
            rest.push((j - 1) as u32)
        } else {
            rest
        }
    }
}

/// The nodes with at least `floor` posts and the edges between them: the
/// kept nodes in id order, the row of each node among them (`u32::MAX` for
/// one left out), and the positions of the kept edges.
pub fn kept_subgraph(a: &[u32], b: &[u32], post_counts: &[u32], floor: u32) -> (r: (Vec<u32>, Vec<u32>, Vec<u32>))
    requires
        a@.len() == b@.len(),
        a@.len() <= u32::MAX,
        post_counts@.len() < u32::MAX,
        forall|j: int| 0 <= j < a@.len() ==> (#[trigger] a@[j]) < post_counts@.len() && b@[j] < post_counts@.len(),
    ensures
        r.0@ == kept_nodes(post_counts@, floor, post_counts@.len() as int),
        r.1@.len() == post_counts@.len(),
        forall|x: int|
            0 <= x < post_counts@.len() ==> #[trigger] r.1@[x] == if post_counts@[x] >= floor {
                kept_row(post_counts@, floor, x as u32)
            } else {
                u32::MAX
            },
        forall|x: int| 0 <= x < post_counts@.len() && post_counts@[x] >= floor ==> #[trigger] r.1@[x] < r.0@.len(),
        r.2@ == kept_edge_ids(a@, b@, post_counts@, floor, a@.len() as int),
{
    let n = post_counts.len();
    let mut nodes: Vec<u32> = Vec::new();
    let mut row: Vec<u32> = Vec::new();
    let mut i: usize = 0;
    while i < n
        invariant
            i <= n,
            n == post_counts@.len(),
            n < u32::MAX,
            nodes@ == kept_nodes(post_counts@, floor, i as int),
            nodes@.len() <= i,
            row@.len() == i,
            forall|x: int|
                0 <= x < i ==> #[trigger] row@[x] == if post_counts@[x] >= floor {
                    kept_row(post_counts@, floor, x as u32)
                } else {
                    u32::MAX
                },
            forall|x: int| 0 <= x < i && post_counts@[x] >= floor ==> #[trigger] row@[x] < nodes@.len(),
        decreases n - i,
    {
        if post_counts[i] >= floor {
            row.push(nodes.len() as u32);
            nodes.push(i as u32);
        } else {
            row.push(u32::MAX);
        }
        i = i + 1;
    }
    let mut ids: Vec<u32> = Vec::new();
    let mut j: usize = 0;
    while j < a.len()
        invariant
            j <= a@.len(),
            a@.len() == b@.len(),
            a@.len() <= u32::MAX,
            n == post_counts@.len(),
            forall|k: int| 0 <= k < a@.len() ==> (#[trigger] a@[k]) < n && b@[k] < n,
            ids@ == kept_edge_ids(a@, b@, post_counts@, floor, j as int),
        decreases a@.len() - j,
    {
        if post_counts[a[j] as usize] >= floor && post_counts[b[j] as usize] >= floor {
            ids.push(j as u32);
        }
        j = j + 1;
    }
    (nodes, row, ids)
}

/// Entries with their neighbour given as the node of its row.
pub open spec fn as_nodes(entries: Seq<(u32, u16)>, nodes: Seq<u32>) -> Seq<(u32, u16)> {
    entries.map_values(|e: (u32, u16)| (nodes[e.0 as int], e.1))
}

proof fn lemma_link_row_within(links: Seq<(u32, u32, u16)>, n: int, i: int)
    requires
        links_within(links, true, n),
    ensures
        forall|t: int|
            0 <= t < link_row(links, true, i).len() ==> (#[trigger] link_row(links, true, i)[t]).0 < n,
    decreases links.len(),
{
    if links.len() > 0 {
        assert(links_within(links.drop_last(), true, n)) by {
            assert forall|k: int| 0 <= k < links.drop_last().len() implies (#[trigger] links.drop_last()[k]).0
                < n && links.drop_last()[k].1 < n by {
                assert(links.drop_last()[k] == links[k]);
            }
        }
        lemma_link_row_within(links.drop_last(), n, i);
        let left = link_row(links.drop_last(), true, i);
        let part = link_part(links.last(), true, i);
        assert(links[links.len() - 1] == links.last());
        assert(link_row(links, true, i) == left + part);
        assert forall|t: int| 0 <= t < link_row(links, true, i).len() implies (#[trigger] link_row(
            links,
            true,
            i,
        )[t]).0 < n by {
            if t >= left.len() {
                assert(link_row(links, true, i)[t] == part[t - left.len()]);
            }
        }
    }
}

/// The run that holds entry `t`.
proof fn lemma_run_holding(off: Seq<usize>, total: int, t: int) -> (q: int)
    requires
        runs_ok(off, total),
        0 <= t < total,
    ensures
        0 <= q < off.len() - 1,
        off[q] <= t < off[q + 1],
    decreases off.len(),
{
    let last = off.len() - 1;
    if last >= 1 && off[last - 1] <= t {
        last - 1
    } else {
        if last == 0 {
            assert(off[0] == total);
        }
        let rest = off.drop_last();
        assert(runs_ok(rest, off[last - 1] as int));
        lemma_run_holding(rest, off[last - 1] as int, t)
    }
}

/// The graph among the nodes with at least `floor` posts: `nodes` lists them,
/// and their rows hold, as runs over `off`, each kept edge at both of its
/// ends, the far end given as its node, in edge order.
#[verifier::rlimit(30)]
pub fn path_adjacency(a: &[u32], b: &[u32], weight: &[u16], post_counts: &[u32], floor: u32) -> (r: (
    Vec<u32>,
    Vec<usize>,
    Vec<u32>,
    Vec<u16>,
))
    requires
        a@.len() == b@.len(),
        a@.len() == weight@.len(),
        2 * a@.len() <= usize::MAX,
        post_counts@.len() < u32::MAX,
        forall|j: int| 0 <= j < a@.len() ==> (#[trigger] a@[j]) < post_counts@.len() && b@[j] < post_counts@.len(),
    ensures
        r.0@ == kept_nodes(post_counts@, floor, post_counts@.len() as int),
        r.1@.len() == r.0@.len() + 1,
        runs_ok(r.1@, r.2@.len() as int),
        r.2@.len() == r.3@.len(),
        forall|i: int|
            0 <= i < r.0@.len() ==> #[trigger] runs_of(r.1@, r.2@, r.3@)[i] == as_nodes(
                link_row(path_links(a@, b@, weight@, post_counts@, floor, a@.len() as int), true, i),
                r.0@,
            ),
{
    let n = post_counts.len();
    let mut nodes: Vec<u32> = Vec::new();
    let mut row: Vec<u32> = Vec::new();
    let mut i: usize = 0;
    while i < n
        invariant
            i <= n,
            n == post_counts@.len(),
            n < u32::MAX,
            nodes@ == kept_nodes(post_counts@, floor, i as int),
            nodes@.len() <= i,
            row@.len() == i,
            forall|x: int|
                0 <= x < i ==> (#[trigger] row@[x] == u32::MAX <==> post_counts@[x] < floor),
            forall|x: int|
                0 <= x < i && post_counts@[x] >= floor ==> #[trigger] row@[x] == kept_row(post_counts@, floor, x as u32)
                    && row@[x] < nodes@.len(),
        decreases n - i,
    {
        if post_counts[i] >= floor {
            row.push(nodes.len() as u32);
            nodes.push(i as u32);
        } else {
            row.push(u32::MAX);
        }
        i = i + 1;
    }
    let m = nodes.len();
    let mut links: Vec<(u32, u32, u16)> = Vec::new();
    let mut j: usize = 0;
    while j < a.len()
        invariant
            j <= a@.len(),
            a@.len() == b@.len(),
            a@.len() == weight@.len(),
            n == post_counts@.len(),
            m == nodes@.len(),
            row@.len() == n,
            forall|k: int| 0 <= k < a@.len() ==> (#[trigger] a@[k]) < n && b@[k] < n,
            forall|x: int|
                0 <= x < n ==> (#[trigger] row@[x] == u32::MAX <==> post_counts@[x] < floor),
            forall|x: int|
                0 <= x < n && post_counts@[x] >= floor ==> #[trigger] row@[x] == kept_row(post_counts@, floor, x as u32)
                    && row@[x] < m,
            links@ == path_links(a@, b@, weight@, post_counts@, floor, j as int),
            links@.len() <= j,
            links_within(links@, true, m as int),
        decreases a@.len() - j,
    {
        let x = row[a[j] as usize];
        let y = row[b[j] as usize];
        if x != u32::MAX && y != u32::MAX {
            links.push((x, y, weight[j]));
        }
        j = j + 1;
    }
    let g = Csr::symmetric(m, &links);
    let (off, col, w) = g.into_runs();
    proof {
        assert forall|t: int| 0 <= t < col@.len() implies (#[trigger] col@[t]) < m by {
            let q = lemma_run_holding(off@, col@.len() as int, t);
            lemma_link_row_within(links@, m as int, q);
            assert(runs_of(off@, col@, w@)[q] == link_row(links@, true, q));
            assert(runs_of(off@, col@, w@)[q][t - off@[q]] == (col@[t], w@[t]));
        }
    }
    let mut far: Vec<u32> = Vec::new();
    let mut t: usize = 0;
    while t < col.len()
        invariant
            t <= col@.len(),
            m == nodes@.len(),
            forall|u: int| 0 <= u < col@.len() ==> (#[trigger] col@[u]) < m,
            far@.len() == t,
            forall|u: int| 0 <= u < t ==> #[trigger] far@[u] == nodes@[col@[u] as int],
        decreases col@.len() - t,
    {
        far.push(nodes[col[t] as usize]);
        t = t + 1;
    }
    proof {
        assert forall|q: int| 0 <= q < m implies #[trigger] runs_of(off@, far@, w@)[q] == as_nodes(
            link_row(links@, true, q),
            nodes@,
        ) by {
            assert(runs_of(off@, col@, w@)[q] == link_row(links@, true, q));
            assert(runs_of(off@, far@, w@)[q] =~= as_nodes(link_row(links@, true, q), nodes@));
        }
    }
    (nodes, off, far, w)
}

/// The bytes a json object of entries is written with.
pub const OPEN: u8 = 123;
pub const CLOSE: u8 = 125;
pub const COMMA: u8 = 44;

/// Where the text shards stand once the first `i` entries are placed: the
/// shards closed so far, the one being filled, and the entry each shard
/// starts at. An entry opens a new shard when the one being filled holds
/// something and would grow past `target` bytes with it.
pub open spec fn packing(pieces: Seq<Seq<u8>>, target: int, i: int) -> (Seq<Seq<u8>>, Seq<u8>, Seq<u32>)
    decreases i,
{
    if i <= 0 {
        (Seq::empty(), Seq::empty(), Seq::empty())
    } else {
        let (shards, current, starts) = packing(pieces, target, i - 1);
        let piece = pieces[i - 1];
        let full = current.len() > 0 && current.len() + piece.len() + 2 > target;
        let shards = if full {
            shards.push(current.push(CLOSE))
        } else {
            shards
        };
        let current = if full {
            Seq::empty()
        } else {
            current
        };
        if current.len() == 0 {
            (shards, seq![OPEN] + piece, starts.push((i - 1) as u32))
        } else {
            (shards, current.push(COMMA) + piece, starts)
        }
    }
}

/// The text shards of `pieces`, each a json object of the entries it holds,
/// and the entry each starts at.
pub open spec fn packed(pieces: Seq<Seq<u8>>, target: int) -> (Seq<Seq<u8>>, Seq<u32>) {
    let (shards, current, starts) = packing(pieces, target, pieces.len() as int);
    (if current.len() > 0 {
        shards.push(current.push(CLOSE))
    } else {
        shards
    }, starts)
}

/// Appends `src` to `dst`.
fn append_bytes(dst: &mut Vec<u8>, src: &Vec<u8>)
    ensures
        final(dst)@ == old(dst)@ + src@,
{
    let ghost start = dst@;
    let mut j: usize = 0;
    while j < src.len()
        invariant
            j <= src@.len(),
            dst@ == start + src@.take(j as int),
        decreases src@.len() - j,
    {
        dst.push(src[j]);
        j = j + 1;
        assert(dst@ =~= start + src@.take(j as int));
    }
    assert(src@.take(j as int) =~= src@);
}

/// Packs the entries `pieces` (each a `"key":value` pair) into json objects
/// of about `target` bytes, in order: a shard is closed before an entry that
/// would take it past `target`, unless it is empty. Returns the shards and
/// the entry each starts at.
pub fn pack_text(pieces: &Vec<Vec<u8>>, target: usize) -> (r: (Vec<Vec<u8>>, Vec<u32>))
    requires
        pieces@.len() <= u32::MAX,
    ensures
        (r.0@.map_values(|v: Vec<u8>| v@), r.1@) == packed(pieces@.map_values(|v: Vec<u8>| v@), target as int),
{
    let ghost views = pieces@.map_values(|v: Vec<u8>| v@);
    let mut shards: Vec<Vec<u8>> = Vec::new();
    let mut current: Vec<u8> = Vec::new();
    let mut starts: Vec<u32> = Vec::new();
    let mut i: usize = 0;
    while i < pieces.len()
        invariant
            i <= pieces@.len(),
            pieces@.len() <= u32::MAX,
            views == pieces@.map_values(|v: Vec<u8>| v@),
            (shards@.map_values(|v: Vec<u8>| v@), current@, starts@) == packing(views, target as int, i as int),
        decreases pieces@.len() - i,
    {
        let piece = &pieces[i];
        let ghost before = packing(views, target as int, i as int);
        let grown = match current.len().checked_add(piece.len()) {
            Some(sum) => match sum.checked_add(2) {
                Some(total) => total > target,
                None => true,
            },
            None => true,
        };
        let ghost old_shards = shards@;
        if current.len() > 0 && grown {
            current.push(CLOSE);
            shards.push(current);
            current = Vec::new();
            assert(shards@.map_values(|v: Vec<u8>| v@) =~= before.0.push(before.1.push(CLOSE)));
        }
        if current.len() == 0 {
            starts.push(i as u32);
            current.push(OPEN);
        } else {
            current.push(COMMA);
        }
        append_bytes(&mut current, piece);
        i = i + 1;
        proof {
            let after = packing(views, target as int, i as int);
            assert(views[i - 1] == piece@);
            assert(current@ =~= after.1);
            assert(shards@.map_values(|v: Vec<u8>| v@) =~= after.0);
        }
    }
    if current.len() > 0 {
        current.push(CLOSE);
        let ghost before = shards@;
        shards.push(current);
        assert(shards@.map_values(|v: Vec<u8>| v@) =~= before.map_values(|v: Vec<u8>| v@).push(
            packing(views, target as int, i as int).1.push(CLOSE),
        ));
    }
    (shards, starts)
}

/// Edge `x` is ranked before edge `y`: heavier, or as heavy and first by its
/// ends, then by its place in the list.
pub open spec fn edge_before(weight: Seq<u16>, a: Seq<u32>, b: Seq<u32>, x: int, y: int) -> bool {
    ||| weight[x] > weight[y]
    ||| weight[x] == weight[y] && a[x] < a[y]
    ||| weight[x] == weight[y] && a[x] == a[y] && b[x] < b[y]
    ||| weight[x] == weight[y] && a[x] == a[y] && b[x] == b[y] && x < y
}

/// The ids `0..m` in a list.
fn id_list(m: usize) -> (ids: Vec<u32>)
    requires
        m <= u32::MAX,
    ensures
        ids@.len() == m,
        forall|j: int| 0 <= j < m ==> #[trigger] ids@[j] == j,
        ids@.no_duplicates(),
{
    let mut ids: Vec<u32> = Vec::new();
    let mut j: usize = 0;
    while j < m
        invariant
            j <= m <= u32::MAX,
            ids@.len() == j,
            forall|x: int| 0 <= x < j ==> #[trigger] ids@[x] == x,
        decreases m - j,
    {
        ids.push(j as u32);
        j = j + 1;
    }
    ids
}

/// The edges in rank order: heaviest first, ties by their ends and then by
/// their place in the list.
#[verifier::rlimit(30)]
pub fn edge_ranking(weight: &[u16], a: &[u32], b: &[u32]) -> (order: Vec<u32>)
    requires
        a@.len() == b@.len(),
        a@.len() == weight@.len(),
        a@.len() < u32::MAX,
    ensures
        order@.len() == a@.len(),
        order@.no_duplicates(),
        forall|x: u32| #[trigger] order@.contains(x) <==> x < a@.len(),
        forall|p: int, q: int|
            0 <= p < q < order@.len() ==> edge_before(weight@, a@, b@, #[trigger] order@[p] as int, #[trigger] order@[q] as int),
{
    let m = a.len();
    let ids = id_list(m);
    // first by ends
    let mut ends: Vec<u64> = Vec::new();
    let mut j: usize = 0;
    while j < m
        invariant
            j <= m == a@.len() == b@.len(),
            ends@.len() == j,
            forall|x: int| 0 <= x < j ==> #[trigger] ends@[x] == pair_key(a@[x], b@[x]),
        decreases m - j,
    {
        ends.push(Pairs::key(a[j], b[j]));
        j = j + 1;
    }
    let by_ends = order_by_key(&ids, &ends);
    assert forall|x: u32| #[trigger] by_ends@.contains(x) <==> x < m by {
        if x < m {
            assert(ids@[x as int] == x);
        }
    }
    assert forall|p: int| 0 <= p < by_ends@.len() implies (#[trigger] by_ends@[p]) < m by {
        assert(by_ends@.contains(by_ends@[p]));
    }
    let place = positions(&by_ends, m);
    // the place by ends, counted from each pair's start, never ties two edges
    proof {
        assert forall|x: int, y: int| 0 <= x < m && 0 <= y < m && x != y implies (#[trigger] place@[x] < #[trigger] place@[y]
            <==> pair_lt((ends@[x], x as u64), (ends@[y], y as u64))) by {
            assert(by_ends@.contains(x as u32) && by_ends@.contains(y as u32));
            let px = choose|p: int| 0 <= p < by_ends@.len() && by_ends@[p] == x as u32;
            let py = choose|p: int| 0 <= p < by_ends@.len() && by_ends@[p] == y as u32;
            assert(place@[by_ends@[px] as int] == px);
            assert(place@[by_ends@[py] as int] == py);
            if px < py {
                assert(pair_lt((ends@[by_ends@[px] as int], by_ends@[px] as u64), (ends@[by_ends@[py] as int], by_ends@[py] as u64)));
            } else {
                assert(pair_lt((ends@[by_ends@[py] as int], by_ends@[py] as u64), (ends@[by_ends@[px] as int], by_ends@[px] as u64)));
            }
        }
    }
    // then by weight, heaviest first
    let mut key: Vec<u64> = Vec::new();
    let mut j: usize = 0;
    while j < m
        invariant
            j <= m == a@.len() == weight@.len(),
            place@.len() == m,
            forall|x: int| 0 <= x < m ==> (#[trigger] place@[x]) < m,
            key@.len() == j,
            forall|x: int| 0 <= x < j ==> #[trigger] key@[x] == pair_key((0xffff - weight@[x]) as u32, place@[x]),
        decreases m - j,
    {
        key.push(Pairs::key(0xffff - weight[j] as u32, place[j]));
        j = j + 1;
    }
    let order = order_by_key(&ids, &key);
    assert forall|x: u32| #[trigger] order@.contains(x) <==> x < m by {
        if x < m {
            assert(ids@[x as int] == x);
        }
    }
    assert forall|p: int, q: int| 0 <= p < q < order@.len() implies edge_before(
        weight@,
        a@,
        b@,
        #[trigger] order@[p] as int,
        #[trigger] order@[q] as int,
    ) by {
        let x = order@[p] as int;
        let y = order@[q] as int;
        assert(order@.contains(order@[p]) && order@.contains(order@[q]));
        assert(x != y);
        assert(pair_lt((key@[x], x as u64), (key@[y], y as u64)));
        assert(place@[x] != place@[y]) by {
            if place@[x] == place@[y] {
                assert(!(place@[x] < place@[y]) && !(place@[y] < place@[x]));
            }
        }
    }
    order
}

/// How many edge ends land on node `x`.
pub open spec fn degree(a: Seq<u32>, b: Seq<u32>, x: u32) -> nat {
    occurrences(a, x) + occurrences(b, x)
}

/// The most edge ends that land on one of the `n` nodes, or zero for none.
pub fn max_degree(n: usize, a: &[u32], b: &[u32]) -> (d: u32)
    requires
        n <= u32::MAX,
        a@.len() + b@.len() <= u32::MAX,
        forall|j: int| 0 <= j < a@.len() ==> (#[trigger] a@[j]) < n,
        forall|j: int| 0 <= j < b@.len() ==> (#[trigger] b@[j]) < n,
    ensures
        forall|x: u32| x < n ==> #[trigger] degree(a@, b@, x) <= d,
        n > 0 ==> exists|x: u32| x < n && #[trigger] degree(a@, b@, x) == d,
        n == 0 ==> d == 0,
{
    let mut deg: Vec<u32> = Vec::new();
    let mut x: usize = 0;
    while x < n
        invariant
            x <= n,
            deg@.len() == x,
            forall|y: int| 0 <= y < x ==> #[trigger] deg@[y] == 0,
        decreases n - x,
    {
        deg.push(0);
        x = x + 1;
    }
    assert forall|y: int| 0 <= y < n implies #[trigger] deg@[y] == occurrences(a@.take(0), y as u32) by {}
    let mut j: usize = 0;
    while j < a.len()
        invariant
            j <= a@.len(),
            n <= u32::MAX,
            a@.len() + b@.len() <= u32::MAX,
            deg@.len() == n,
            forall|k: int| 0 <= k < a@.len() ==> (#[trigger] a@[k]) < n,
            forall|y: int| 0 <= y < n ==> #[trigger] deg@[y] == occurrences(a@.take(j as int), y as u32),
            forall|y: int| 0 <= y < n ==> #[trigger] deg@[y] <= j,
        decreases a@.len() - j,
    {
        let v = a[j] as usize;
        deg.set(v, deg[v] + 1);
        proof {
            assert forall|y: int| 0 <= y < n implies #[trigger] deg@[y] == occurrences(a@.take(j + 1), y as u32) by {
                crate::communities::lemma_occurrences_step(a@, j as int, y as u32);
            }
        }
        j = j + 1;
    }
    assert(a@.take(a@.len() as int) =~= a@);
    let ghost from_a = deg@;
    let mut j: usize = 0;
    while j < b.len()
        invariant
            j <= b@.len(),
            n <= u32::MAX,
            a@.len() + b@.len() <= u32::MAX,
            deg@.len() == n,
            from_a.len() == n,
            forall|k: int| 0 <= k < b@.len() ==> (#[trigger] b@[k]) < n,
            forall|y: int| 0 <= y < n ==> #[trigger] from_a[y] == occurrences(a@, y as u32),
            forall|y: int| 0 <= y < n ==> from_a[y] <= a@.len(),
            forall|y: int| 0 <= y < n ==> #[trigger] deg@[y] == from_a[y] + occurrences(b@.take(j as int), y as u32),
            forall|y: int| 0 <= y < n ==> #[trigger] deg@[y] <= a@.len() + j,
        decreases b@.len() - j,
    {
        let v = b[j] as usize;
        deg.set(v, deg[v] + 1);
        proof {
            assert forall|y: int| 0 <= y < n implies #[trigger] deg@[y] == from_a[y] + occurrences(
                b@.take(j + 1),
                y as u32,
            ) by {
                crate::communities::lemma_occurrences_step(b@, j as int, y as u32);
            }
        }
        j = j + 1;
    }
    assert(b@.take(b@.len() as int) =~= b@);
    let mut best: u32 = 0;
    let mut x: usize = 0;
    while x < n
        invariant
            x <= n == deg@.len(),
            n <= u32::MAX,
            forall|y: int| 0 <= y < n ==> #[trigger] deg@[y] == degree(a@, b@, y as u32),
            forall|y: int| 0 <= y < x ==> #[trigger] deg@[y] <= best,
            x == 0 ==> best == 0,
            x > 0 ==> exists|y: int| 0 <= y < x && #[trigger] deg@[y] == best,
        decreases n - x,
    {
        if deg[x] > best || x == 0 {
            best = deg[x];
        }
        x = x + 1;
    }
    assert forall|y: u32| y < n implies #[trigger] degree(a@, b@, y) <= best by {
        assert(deg@[y as int] <= best);
    }
    if n > 0 {
        let ghost y = choose|y: int| 0 <= y < n && #[trigger] deg@[y] == best;
        assert(degree(a@, b@, y as u32) == best);
    }
    best
}

/// `me`'s list with the tie to `other` added, unless it already holds `cap`.
pub open spec fn add_tie(
    lists: Seq<Seq<(u32, u16, u32)>>,
    me: u32,
    other: u32,
    weight: u16,
    count: u32,
    cap: int,
) -> Seq<Seq<(u32, u16, u32)>> {
    if lists[me as int].len() < cap {
        lists.update(me as int, lists[me as int].push((other, weight, count)))
    } else {
        lists
    }
}

/// Each node's ties once the first `p` edges of `order` are taken, at most
/// `cap` a node: the far end, the weight and the count of each.
pub open spec fn tie_lists(
    order: Seq<u32>,
    a: Seq<u32>,
    b: Seq<u32>,
    weight: Seq<u16>,
    count: Seq<u32>,
    n: int,
    cap: int,
    p: int,
) -> Seq<Seq<(u32, u16, u32)>>
    decreases p,
{
    if p <= 0 {
        Seq::new(n as nat, |x: int| Seq::<(u32, u16, u32)>::empty())
    } else {
        let lists = tie_lists(order, a, b, weight, count, n, cap, p - 1);
        let k = order[p - 1] as int;
        let lists = add_tie(lists, a[k], b[k], weight[k], count[k], cap);
        add_tie(lists, b[k], a[k], weight[k], count[k], cap)
    }
}

fn add_tie_to(
    lists: &mut Vec<Vec<(u32, u16, u32)>>,
    me: u32,
    other: u32,
    weight: u16,
    count: u32,
    cap: usize,
)
    requires
        me < old(lists)@.len(),
    ensures
        final(lists)@.len() == old(lists)@.len(),
        final(lists)@.map_values(|v: Vec<(u32, u16, u32)>| v@) == add_tie(
            old(lists)@.map_values(|v: Vec<(u32, u16, u32)>| v@),
            me,
            other,
            weight,
            count,
            cap as int,
        ),
{
    let ghost before = old(lists)@.map_values(|v: Vec<(u32, u16, u32)>| v@);
    if lists[me as usize].len() < cap {
        lists[me as usize].push((other, weight, count));
        assert(lists@.map_values(|v: Vec<(u32, u16, u32)>| v@) =~= before.update(
            me as int,
            before[me as int].push((other, weight, count)),
        ));
    }
}

/// Each of the `n` nodes' ties, taking the edges in `order` and keeping at
/// most `cap` a node: the far end, the weight and the count of each.
pub fn tie_neighbours(
    order: &[u32],
    a: &[u32],
    b: &[u32],
    weight: &[u16],
    count: &[u32],
    n: usize,
    cap: usize,
) -> (lists: Vec<Vec<(u32, u16, u32)>>)
    requires
        a@.len() == b@.len(),
        a@.len() == weight@.len(),
        a@.len() == count@.len(),
        forall|p: int| 0 <= p < order@.len() ==> (#[trigger] order@[p]) < a@.len(),
        forall|k: int| 0 <= k < a@.len() ==> (#[trigger] a@[k]) < n && b@[k] < n,
    ensures
        lists@.map_values(|v: Vec<(u32, u16, u32)>| v@) == tie_lists(
            order@,
            a@,
            b@,
            weight@,
            count@,
            n as int,
            cap as int,
            order@.len() as int,
        ),
{
    let mut lists: Vec<Vec<(u32, u16, u32)>> = Vec::new();
    let mut x: usize = 0;
    while x < n
        invariant
            x <= n,
            lists@.len() == x,
            forall|y: int| 0 <= y < x ==> (#[trigger] lists@[y])@ == Seq::<(u32, u16, u32)>::empty(),
        decreases n - x,
    {
        lists.push(Vec::new());
        x = x + 1;
    }
    assert(lists@.map_values(|v: Vec<(u32, u16, u32)>| v@) =~= tie_lists(
        order@,
        a@,
        b@,
        weight@,
        count@,
        n as int,
        cap as int,
        0,
    ));
    let mut p: usize = 0;
    while p < order.len()
        invariant
            p <= order@.len(),
            a@.len() == b@.len(),
            a@.len() == weight@.len(),
            a@.len() == count@.len(),
            forall|q: int| 0 <= q < order@.len() ==> (#[trigger] order@[q]) < a@.len(),
            forall|k: int| 0 <= k < a@.len() ==> (#[trigger] a@[k]) < n && b@[k] < n,
            lists@.len() == n,
            lists@.map_values(|v: Vec<(u32, u16, u32)>| v@) == tie_lists(
                order@,
                a@,
                b@,
                weight@,
                count@,
                n as int,
                cap as int,
                p as int,
            ),
        decreases order@.len() - p,
    {
        let k = order[p] as usize;
        add_tie_to(&mut lists, a[k], b[k], weight[k], count[k], cap);
        add_tie_to(&mut lists, b[k], a[k], weight[k], count[k], cap);
        p = p + 1;
    }
    lists
}

/// The zoom level an edge of rank `rank` is drawn from: the first cutoff
/// above the rank, counted from `i`, or one past the last cutoff.
pub open spec fn level_from(cutoffs: Seq<usize>, rank: int, i: int) -> int
    decreases cutoffs.len() - i,
{
    if i >= cutoffs.len() || i < 0 {
        cutoffs.len() as int
    } else if rank < cutoffs[i] {
        i
    } else {
        level_from(cutoffs, rank, i + 1)
    }
}

/// The zoom level of the edge of rank `rank`: the first cutoff above it, or
/// one past the last cutoff.
pub fn tile_level(cutoffs: &[usize], rank: usize) -> (level: usize)
    ensures
        level == level_from(cutoffs@, rank as int, 0),
        level <= cutoffs@.len(),
{
    let mut i: usize = 0;
    while i < cutoffs.len()
        invariant
            i <= cutoffs@.len(),
            level_from(cutoffs@, rank as int, i as int) == level_from(cutoffs@, rank as int, 0),
        decreases cutoffs@.len() - i,
    {
        if rank < cutoffs[i] {
            return i;
        }
        i = i + 1;
    }
    i
}

/// The ranks among the first `r` whose level is `l` and cell `c`, in order.
pub open spec fn tile_ranks(levels: Seq<usize>, cells: Seq<usize>, l: int, c: int, r: int) -> Seq<u32>
    decreases r,
{
    if r <= 0 {
        Seq::empty()
    } else {
        let rest = tile_ranks(levels, cells, l, c, r - 1);
        if levels[r - 1] == l && cells[r - 1] == c {
            rest.push((r - 1) as u32)
        } else {
            rest
        }
    }
}

/// The ranks drawn in each cell of each level: level `l` has `sizes[l]`
/// cells, and rank `r` sits in cell `cells[r]` of level `levels[r]`.
pub fn tile_members(levels: &[usize], cells: &[usize], sizes: &[usize]) -> (members: Vec<Vec<Vec<u32>>>)
    requires
        levels@.len() == cells@.len(),
        levels@.len() <= u32::MAX,
        forall|r: int| 0 <= r < levels@.len() ==> (#[trigger] levels@[r]) < sizes@.len() && cells@[r] < sizes@[levels@[r] as int],
    ensures
        members@.len() == sizes@.len(),
        forall|l: int| 0 <= l < sizes@.len() ==> (#[trigger] members@[l])@.len() == sizes@[l],
        forall|l: int, c: int|
            0 <= l < sizes@.len() && 0 <= c < sizes@[l] ==> (#[trigger] members@[l]@[c])@ == tile_ranks(
                levels@,
                cells@,
                l,
                c,
                levels@.len() as int,
            ),
{
    let mut members: Vec<Vec<Vec<u32>>> = Vec::new();
    let mut l: usize = 0;
    while l < sizes.len()
        invariant
            l <= sizes@.len(),
            members@.len() == l,
            forall|x: int| 0 <= x < l ==> (#[trigger] members@[x])@.len() == sizes@[x],
            forall|x: int, c: int|
                0 <= x < l && 0 <= c < sizes@[x] ==> (#[trigger] members@[x]@[c])@ == Seq::<u32>::empty(),
        decreases sizes@.len() - l,
    {
        let mut row: Vec<Vec<u32>> = Vec::new();
        let size = sizes[l];
        let mut c: usize = 0;
        while c < size
            invariant
                size == sizes@[l as int],
                c <= sizes@[l as int],
                row@.len() == c,
                forall|y: int| 0 <= y < c ==> (#[trigger] row@[y])@ == Seq::<u32>::empty(),
            decreases sizes@[l as int] - c,
        {
            row.push(Vec::new());
            c = c + 1;
        }
        members.push(row);
        l = l + 1;
    }
    let mut r: usize = 0;
    while r < levels.len()
        invariant
            r <= levels@.len() == cells@.len(),
            levels@.len() <= u32::MAX,
            forall|q: int|
                0 <= q < levels@.len() ==> (#[trigger] levels@[q]) < sizes@.len() && cells@[q] < sizes@[levels@[q] as int],
            members@.len() == sizes@.len(),
            forall|x: int| 0 <= x < sizes@.len() ==> (#[trigger] members@[x])@.len() == sizes@[x],
            forall|x: int, c: int|
                0 <= x < sizes@.len() && 0 <= c < sizes@[x] ==> (#[trigger] members@[x]@[c])@ == tile_ranks(
                    levels@,
                    cells@,
                    x,
                    c,
                    r as int,
                ),
        decreases levels@.len() - r,
    {
        let l = levels[r];
        let c = cells[r];
        members[l][c].push(r as u32);
        r = r + 1;
        assert forall|x: int, y: int| 0 <= x < sizes@.len() && 0 <= y < sizes@[x] implies (#[trigger] members@[x]@[y])@
            == tile_ranks(levels@, cells@, x, y, r as int) by {}
    }
    members
}

/// The first `t` entries of the neighbour row that starts at `start`, each
/// as the core node it names and its similarity; where `skip` holds, entries
/// that name no neighbour (`u32::MAX`) are left out.
pub open spec fn row_entries(
    knn: Seq<u32>,
    sim: Seq<u16>,
    core: Seq<u32>,
    start: int,
    t: int,
    skip: bool,
) -> Seq<(u32, u16)>
    decreases t,
{
    if t <= 0 {
        Seq::empty()
    } else {
        let rest = row_entries(knn, sim, core, start, t - 1, skip);
        let j = knn[start + t - 1];
        if skip && j == u32::MAX {
            rest
        } else {
            rest.push((core[j as int], sim[start + t - 1]))
        }
    }
}

/// The width of each neighbour row: the entries shared out over the rows.
pub open spec fn row_width(entries: int, rows: int) -> int {
    if rows > 0 {
        entries / rows
    } else {
        entries
    }
}

/// The similar-node lists once the first `i` rows are written: row `r`
/// gives node `rows[r]` its first `take` neighbours.
pub open spec fn similar_after(
    lists: Seq<Seq<(u32, u16)>>,
    rows: Seq<u32>,
    knn: Seq<u32>,
    sim: Seq<u16>,
    core: Seq<u32>,
    take: int,
    skip: bool,
    i: int,
) -> Seq<Seq<(u32, u16)>>
    decreases i,
{
    if i <= 0 {
        lists
    } else {
        let width = row_width(knn.len() as int, rows.len() as int);
        let count = if take < width {
            take
        } else {
            width
        };
        similar_after(lists, rows, knn, sim, core, take, skip, i - 1).update(
            rows[i - 1] as int,
            row_entries(knn, sim, core, (i - 1) * width, count, skip),
        )
    }
}

/// Gives each node of `rows` its first `take` neighbours from its row of
/// `knn`, named as core nodes with their similarities; where `skip` holds,
/// entries that name no neighbour are left out.
pub fn similar_rows(
    lists: &mut Vec<Vec<(u32, u16)>>,
    rows: &[u32],
    knn: &[u32],
    sim: &[u16],
    core: &[u32],
    take: usize,
    skip: bool,
)
    requires
        sim@.len() == knn@.len(),
        forall|r: int| 0 <= r < rows@.len() ==> (#[trigger] rows@[r]) < old(lists)@.len(),
        forall|k: int|
            0 <= k < knn@.len() && !(skip && knn@[k] == u32::MAX) ==> (#[trigger] knn@[k]) < core@.len(),
    ensures
        final(lists)@.len() == old(lists)@.len(),
        final(lists)@.map_values(|v: Vec<(u32, u16)>| v@) == similar_after(
            old(lists)@.map_values(|v: Vec<(u32, u16)>| v@),
            rows@,
            knn@,
            sim@,
            core@,
            take as int,
            skip,
            rows@.len() as int,
        ),
{
    let ghost start_lists = old(lists)@.map_values(|v: Vec<(u32, u16)>| v@);
    let n_rows = rows.len();
    let knn_len = knn.len();
    let width: usize = if n_rows > 0 {
        knn.len() / n_rows
    } else {
        knn.len()
    };
    let count: usize = if take < width {
        take
    } else {
        width
    };
    let ghost total = knn@.len() as int;
    let ghost nr = n_rows as int;
    assert(nr * (width as int) <= total) by (nonlinear_arith)
        requires
            nr > 0 ==> width == total / nr,
            nr == 0 ==> width == total,
            nr >= 0,
            total >= 0,
    ;
    let mut i: usize = 0;
    while i < n_rows
        invariant
            i <= n_rows == rows@.len(),
            knn_len == knn@.len(),
            sim@.len() == knn@.len(),
            width == row_width(knn@.len() as int, rows@.len() as int),
            count <= width,
            count == (if take < width { take } else { width }),
            n_rows * width <= knn@.len(),
            forall|r: int| 0 <= r < rows@.len() ==> (#[trigger] rows@[r]) < lists@.len(),
            forall|k: int|
                0 <= k < knn@.len() && !(skip && knn@[k] == u32::MAX) ==> (#[trigger] knn@[k]) < core@.len(),
            lists@.len() == start_lists.len(),
            lists@.map_values(|v: Vec<(u32, u16)>| v@) == similar_after(
                start_lists,
                rows@,
                knn@,
                sim@,
                core@,
                take as int,
                skip,
                i as int,
            ),
        decreases n_rows - i,
    {
        assert(i * width + width <= knn@.len()) by (nonlinear_arith)
            requires
                i + 1 <= n_rows,
                n_rows * width <= knn@.len(),
        ;
        let start = i * width;
        assert(start + width <= knn@.len());
        let mut entries: Vec<(u32, u16)> = Vec::new();
        let mut t: usize = 0;
        while t < count
            invariant
                t <= count <= width,
                start == i * width,
                start + width <= knn@.len(),
                knn_len == knn@.len(),
                sim@.len() == knn@.len(),
                forall|k: int|
                    0 <= k < knn@.len() && !(skip && knn@[k] == u32::MAX) ==> (#[trigger] knn@[k]) < core@.len(),
                entries@ == row_entries(knn@, sim@, core@, start as int, t as int, skip),
            decreases count - t,
        {
            let j = knn[start + t];
            if !(skip && j == u32::MAX) {
                entries.push((core[j as usize], sim[start + t]));
            }
            t = t + 1;
        }
        let node = rows[i] as usize;
        let ghost before = lists@.map_values(|v: Vec<(u32, u16)>| v@);
        lists.set(node, entries);
        i = i + 1;
        assert(lists@.map_values(|v: Vec<(u32, u16)>| v@) =~= before.update(
            node as int,
            row_entries(knn@, sim@, core@, ((i - 1) * width) as int, count as int, skip),
        ));
    }
}

} // verus!
