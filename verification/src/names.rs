use vstd::prelude::*;

use crate::sorting::{order_by_key, pair_lt};

verus! {

/// The tag category of general tags.
pub const GENERAL: u8 = 0;

/// Region `r` has a general tag among its members.
pub open spec fn has_general(membership: Seq<u32>, categories: Seq<u8>, r: int) -> bool {
    exists|j: int| 0 <= j < membership.len() && membership[j] == r && #[trigger] categories[j] == GENERAL
}

/// Node `i` stands for region `r` when nothing fits it: a general member,
/// or any member of a region without one.
pub open spec fn in_family(membership: Seq<u32>, categories: Seq<u8>, r: int, i: int) -> bool {
    &&& 0 <= i < membership.len()
    &&& membership[i] == r
    &&& categories[i] == GENERAL || !has_general(membership, categories, r)
}

/// Node `x` comes before node `y`: more posts, or as many and a lower id.
pub open spec fn posts_before(post_counts: Seq<u32>, x: u32, y: u32) -> bool {
    post_counts[x as int] > post_counts[y as int] || (post_counts[x as int] == post_counts[y as int]
        && x < y)
}

/// `list` is the family of region `r`, most posted first.
pub open spec fn is_family(
    list: Seq<u32>,
    membership: Seq<u32>,
    categories: Seq<u8>,
    post_counts: Seq<u32>,
    r: int,
) -> bool {
    &&& list.no_duplicates()
    &&& forall|x: u32| #[trigger] list.contains(x) <==> in_family(membership, categories, r, x as int)
    &&& forall|a: int, c: int|
        0 <= a < c < list.len() ==> posts_before(post_counts, #[trigger] list[a], #[trigger] list[c])
}

/// `lists` holds the family of each of the `k` regions.
pub open spec fn families(
    lists: Seq<Seq<u32>>,
    membership: Seq<u32>,
    categories: Seq<u8>,
    post_counts: Seq<u32>,
    k: int,
) -> bool {
    &&& lists.len() == k
    &&& forall|r: int| 0 <= r < k ==> is_family(#[trigger] lists[r], membership, categories, post_counts, r)
}

/// The entries of `list` not yet taken, in their order.
pub open spec fn unused(list: Seq<u32>, used: Set<u32>) -> Seq<u32>
    decreases list.len(),
{
    if list.len() == 0 {
        list
    } else {
        let rest = unused(list.drop_last(), used);
        if used.contains(list.last()) {
            rest
        } else {
            rest.push(list.last())
        }
    }
}

/// At most the first `take` entries of `list`.
pub open spec fn first_of(list: Seq<u32>, take: int) -> Seq<u32> {
    if take < list.len() {
        list.take(take)
    } else {
        list
    }
}

/// The names a region gets: its ranked candidates not yet taken, or else
/// its family not yet taken, or else its ranked candidates after all; at
/// most `take` of them.
pub open spec fn pick(ranked: Seq<u32>, family: Seq<u32>, used: Set<u32>, take: int) -> Seq<u32> {
    let fresh = unused(ranked, used);
    let members = unused(family, used);
    first_of(
        if fresh.len() > 0 {
            fresh
        } else if members.len() > 0 {
            members
        } else {
            ranked
        },
        take,
    )
}

/// The names of the regions once the first `p` of `order` are named, with
/// the first names taken so far. A region that fits ranks its candidates by
/// fit; one that does not ranks its family.
pub open spec fn naming(
    order: Seq<u32>,
    fits: Seq<bool>,
    fit_ranked: Seq<Seq<u32>>,
    lists: Seq<Seq<u32>>,
    take: int,
    p: nat,
) -> (Seq<Seq<u32>>, Set<u32>)
    decreases p,
{
    if p == 0 {
        (Seq::new(lists.len(), |r: int| Seq::<u32>::empty()), Set::empty())
    } else {
        let (out, used) = naming(order, fits, fit_ranked, lists, take, (p - 1) as nat);
        let r = order[p - 1] as int;
        let ranked = if fits[r] {
            fit_ranked[r]
        } else {
            lists[r]
        };
        let got = pick(ranked, lists[r], used, take);
        (out.update(r, got), if got.len() > 0 {
            used.insert(got[0])
        } else {
            used
        })
    }
}

/// The nodes marked in `used`.
pub open spec fn marked(used: Seq<bool>) -> Set<u32> {
    Set::new(|x: u32| x < used.len() && used[x as int])
}

/// The members of region `r` among the first `i` nodes, in id order, only
/// the general ones where `general` says so.
pub open spec fn members_below(
    membership: Seq<u32>,
    categories: Seq<u8>,
    r: int,
    i: int,
    general: bool,
) -> Seq<u32>
    decreases i,
{
    if i <= 0 {
        Seq::empty()
    } else {
        let rest = members_below(membership, categories, r, i - 1, general);
        if membership[i - 1] == r && (!general || categories[i - 1] == GENERAL) {
            rest.push((i - 1) as u32)
        } else {
            rest
        }
    }
}

proof fn lemma_members_below(membership: Seq<u32>, categories: Seq<u8>, r: int, i: int, general: bool)
    requires
        0 <= i <= membership.len(),
        membership.len() <= categories.len(),
        membership.len() < u32::MAX,
    ensures
        ({
            let s = members_below(membership, categories, r, i, general);
            &&& forall|a: int, c: int| 0 <= a < c < s.len() ==> #[trigger] s[a] < #[trigger] s[c]
            &&& forall|a: int| 0 <= a < s.len() ==> #[trigger] s[a] < i
            &&& forall|x: u32|
                #[trigger] s.contains(x) <==> (x < i && membership[x as int] == r && (!general
                    || categories[x as int] == GENERAL))
        }),
    decreases i,
{
    if i > 0 {
        lemma_members_below(membership, categories, r, i - 1, general);
        let rest = members_below(membership, categories, r, i - 1, general);
        let s = members_below(membership, categories, r, i, general);
        assert forall|x: u32|
            #[trigger] s.contains(x) <==> (x < i && membership[x as int] == r && (!general
                || categories[x as int] == GENERAL)) by {
            if s.contains(x) {
                let a = choose|a: int| 0 <= a < s.len() && s[a] == x;
                if a < rest.len() {
                    assert(rest.contains(x));
                }
            }
            if x < i - 1 && membership[x as int] == r && (!general || categories[x as int] == GENERAL) {
                assert(rest.contains(x));
                let a = choose|a: int| 0 <= a < rest.len() && rest[a] == x;
                assert(s[a] == x);
            }
            if x == i - 1 && membership[x as int] == r && (!general || categories[x as int] == GENERAL) {
                assert(s[rest.len() as int] == x);
            }
        }
    }
}

proof fn lemma_unused_push(list: Seq<u32>, used: Set<u32>, i: int)
    requires
        0 <= i < list.len(),
    ensures
        unused(list.take(i + 1), used) == if used.contains(list[i]) {
            unused(list.take(i), used)
        } else {
            unused(list.take(i), used).push(list[i])
        },
{
    assert(list.take(i + 1).drop_last() =~= list.take(i));
}

proof fn lemma_unused_members(list: Seq<u32>, used: Set<u32>)
    ensures
        forall|a: int|
            0 <= a < unused(list, used).len() ==> list.contains(#[trigger] unused(list, used)[a]),
    decreases list.len(),
{
    if list.len() > 0 {
        lemma_unused_members(list.drop_last(), used);
        let rest = unused(list.drop_last(), used);
        assert forall|a: int| 0 <= a < unused(list, used).len() implies list.contains(
            #[trigger] unused(list, used)[a],
        ) by {
            if a < rest.len() {
                assert(list.drop_last().contains(rest[a]));
                let b = choose|b: int| 0 <= b < list.drop_last().len() && list.drop_last()[b] == rest[a];
                assert(list[b] == rest[a]);
            } else {
                assert(list[list.len() - 1] == list.last());
            }
        }
    }
}

/// The entries of `list` that `used` does not mark.
fn unused_of(list: &Vec<u32>, used: &Vec<bool>) -> (out: Vec<u32>)
    requires
        forall|a: int| 0 <= a < list@.len() ==> (#[trigger] list@[a]) < used@.len(),
    ensures
        out@ == unused(list@, marked(used@)),
{
    let mut out: Vec<u32> = Vec::new();
    let mut i: usize = 0;
    while i < list.len()
        invariant
            i <= list@.len(),
            forall|a: int| 0 <= a < list@.len() ==> (#[trigger] list@[a]) < used@.len(),
            out@ == unused(list@.take(i as int), marked(used@)),
        decreases list@.len() - i,
    {
        proof {
            lemma_unused_push(list@, marked(used@), i as int);
        }
        let x = list[i];
        if !used[x as usize] {
            out.push(x);
        }
        i = i + 1;
    }
    assert(list@.take(i as int) =~= list@);
    out
}

/// At most the first `take` entries of `list`.
fn first_entries(list: Vec<u32>, take: usize) -> (out: Vec<u32>)
    ensures
        out@ == first_of(list@, take as int),
{
    if take < list.len() {
        let mut out: Vec<u32> = Vec::new();
        let mut i: usize = 0;
        while i < take
            invariant
                i <= take,
                take < list@.len(),
                out@ == list@.take(i as int),
            decreases take - i,
        {
            out.push(list[i]);
            i = i + 1;
            assert(out@ =~= list@.take(i as int));
        }
        out
    } else {
        list
    }
}

/// A copy of `list`.
fn copied(list: &Vec<u32>) -> (out: Vec<u32>)
    ensures
        out@ == list@,
{
    let mut out: Vec<u32> = Vec::new();
    let mut i: usize = 0;
    while i < list.len()
        invariant
            i <= list@.len(),
            out@ == list@.take(i as int),
        decreases list@.len() - i,
    {
        out.push(list[i]);
        i = i + 1;
        assert(out@ =~= list@.take(i as int));
    }
    assert(list@.take(i as int) =~= list@);
    out
}

/// The names of one region, as `pick` gives them.
fn pick_names(ranked: &Vec<u32>, family: &Vec<u32>, used: &Vec<bool>, take: usize) -> (out: Vec<u32>)
    requires
        forall|a: int| 0 <= a < ranked@.len() ==> (#[trigger] ranked@[a]) < used@.len(),
        forall|a: int| 0 <= a < family@.len() ==> (#[trigger] family@[a]) < used@.len(),
    ensures
        out@ == pick(ranked@, family@, marked(used@), take as int),
{
    let fresh = unused_of(ranked, used);
    let chosen = if fresh.len() > 0 {
        fresh
    } else {
        let members = unused_of(family, used);
        if members.len() > 0 {
            members
        } else {
            copied(ranked)
        }
    };
    first_entries(chosen, take)
}

/// The family of each of the `k` regions, most posted first.
fn family_lists(membership: &[u32], post_counts: &[u32], categories: &[u8], k: usize) -> (lists: Vec<
    Vec<u32>,
>)
    requires
        membership@.len() < u32::MAX,
        categories@.len() >= membership@.len(),
        post_counts@.len() >= membership@.len(),
        forall|i: int| 0 <= i < membership@.len() ==> (#[trigger] membership@[i]) < k,
    ensures
        lists@.len() == k,
        forall|r: int|
            0 <= r < k ==> is_family(#[trigger] lists@[r]@, membership@, categories@, post_counts@, r),
        forall|r: int, a: int|
            0 <= r < k && 0 <= a < lists@[r]@.len() ==> (#[trigger] lists@[r]@[a]) < membership@.len(),
{
    let n = membership.len();
    let ghost m = membership@;
    let ghost c = categories@.take(n as int);
    let mut general: Vec<Vec<u32>> = Vec::new();
    let mut any: Vec<Vec<u32>> = Vec::new();
    let mut r: usize = 0;
    while r < k
        invariant
            r <= k,
            general@.len() == r,
            any@.len() == r,
            forall|s: int| 0 <= s < r ==> (#[trigger] general@[s])@ == Seq::<u32>::empty(),
            forall|s: int| 0 <= s < r ==> (#[trigger] any@[s])@ == Seq::<u32>::empty(),
        decreases k - r,
    {
        general.push(Vec::new());
        any.push(Vec::new());
        r = r + 1;
    }
    let mut i: usize = 0;
    while i < n
        invariant
            i <= n,
            n == membership@.len(),
            n < u32::MAX,
            categories@.len() >= n,
            forall|j: int| 0 <= j < n ==> (#[trigger] membership@[j]) < k,
            general@.len() == k,
            any@.len() == k,
            forall|s: int|
                0 <= s < k ==> (#[trigger] general@[s])@ == members_below(membership@, categories@, s, i as int, true),
            forall|s: int|
                0 <= s < k ==> (#[trigger] any@[s])@ == members_below(membership@, categories@, s, i as int, false),
        decreases n - i,
    {
        let g = membership[i] as usize;
        if categories[i] == GENERAL {
            general[g].push(i as u32);
        }
        any[g].push(i as u32);
        i = i + 1;
        assert forall|s: int| 0 <= s < k implies (#[trigger] general@[s])@ == members_below(
            membership@,
            categories@,
            s,
            i as int,
            true,
        ) by {}
        assert forall|s: int| 0 <= s < k implies (#[trigger] any@[s])@ == members_below(
            membership@,
            categories@,
            s,
            i as int,
            false,
        ) by {}
    }
    // most posted first, ties by id
    let mut key: Vec<u64> = Vec::new();
    let mut j: usize = 0;
    while j < n
        invariant
            j <= n,
            n == membership@.len(),
            post_counts@.len() >= n,
            key@.len() == j,
            forall|x: int| 0 <= x < j ==> #[trigger] key@[x] == u64::MAX - post_counts@[x],
        decreases n - j,
    {
        key.push(u64::MAX - post_counts[j] as u64);
        j = j + 1;
    }
    let mut lists: Vec<Vec<u32>> = Vec::new();
    let mut r: usize = 0;
    while r < k
        invariant
            r <= k,
            n == membership@.len(),
            n < u32::MAX,
            categories@.len() >= n,
            post_counts@.len() >= n,
            key@.len() == n,
            forall|x: int| 0 <= x < n ==> #[trigger] key@[x] == u64::MAX - post_counts@[x],
            general@.len() == k,
            any@.len() == k,
            forall|s: int|
                0 <= s < k ==> (#[trigger] general@[s])@ == members_below(membership@, categories@, s, n as int, true),
            forall|s: int|
                0 <= s < k ==> (#[trigger] any@[s])@ == members_below(membership@, categories@, s, n as int, false),
            lists@.len() == r,
            forall|s: int|
                0 <= s < r ==> is_family(#[trigger] lists@[s]@, membership@, categories@, post_counts@, s),
            forall|s: int, a: int| 0 <= s < r && 0 <= a < lists@[s]@.len() ==> (#[trigger] lists@[s]@[a]) < n,
        decreases k - r,
    {
        proof {
            lemma_members_below(membership@, categories@, r as int, n as int, true);
            lemma_members_below(membership@, categories@, r as int, n as int, false);
        }
        let ghost gen = general@[r as int]@;
        let ghost all = any@[r as int]@;
        let source: &Vec<u32> = if general[r].len() > 0 {
            &general[r]
        } else {
            &any[r]
        };
        assert(gen.len() > 0 <==> has_general(membership@, categories@, r as int)) by {
            if gen.len() > 0 {
                assert(gen.contains(gen[0]));
            }
            if has_general(membership@, categories@, r as int) {
                let j = choose|j: int|
                    0 <= j < membership@.len() && membership@[j] == r && #[trigger] categories@[j] == GENERAL;
                assert(gen.contains(j as u32));
            }
        }
        assert(source@.no_duplicates()) by {
            assert forall|a: int, b: int| 0 <= a < source@.len() && 0 <= b < source@.len() && a != b implies source@[a]
                != source@[b] by {
                if a < b {
                    assert(source@[a] < source@[b]);
                } else {
                    assert(source@[b] < source@[a]);
                }
            }
        }
        let sorted = order_by_key(source, &key);
        proof {
            assert forall|x: u32| #[trigger] sorted@.contains(x) <==> in_family(
                membership@,
                categories@,
                r as int,
                x as int,
            ) by {
                assert(sorted@.contains(x) <==> source@.contains(x));
            }
            assert forall|a: int, b: int| 0 <= a < b < sorted@.len() implies posts_before(
                post_counts@,
                #[trigger] sorted@[a],
                #[trigger] sorted@[b],
            ) by {
                assert(sorted@.contains(sorted@[a]) && sorted@.contains(sorted@[b]));
                assert(source@.contains(sorted@[a]) && source@.contains(sorted@[b]));
                assert(pair_lt(
                    (key@[sorted@[a] as int], sorted@[a] as u64),
                    (key@[sorted@[b] as int], sorted@[b] as u64),
                ));
            }
            assert forall|a: int| 0 <= a < sorted@.len() implies (#[trigger] sorted@[a]) < n by {
                assert(sorted@.contains(sorted@[a]));
                assert(source@.contains(sorted@[a]));
            }
        }
        lists.push(sorted);
        r = r + 1;
    }
    lists
}

/// Names each region: the regions are named in `order`, each by its
/// `take` best candidates that no region before it took as its first name.
/// A region whose `fits` entry holds ranks the candidates in `fit_ranked`;
/// one that does not ranks its family, its general members (or all of them
/// where it has none) by posts. Where every candidate is taken the family
/// stands in, and where that is taken too the candidates are kept as they
/// are. A region that `order` does not list gets no names.
pub fn names(
    order: &[u32],
    fits: &[bool],
    fit_ranked: &[Vec<u32>],
    membership: &[u32],
    post_counts: &[u32],
    categories: &[u8],
    take: usize,
) -> (out: Vec<Vec<u32>>)
    requires
        fit_ranked@.len() == fits@.len(),
        forall|p: int| 0 <= p < order@.len() ==> (#[trigger] order@[p]) < fits@.len(),
        forall|i: int| 0 <= i < membership@.len() ==> (#[trigger] membership@[i]) < fits@.len(),
        forall|r: int, a: int|
            0 <= r < fit_ranked@.len() && 0 <= a < fit_ranked@[r]@.len() ==> (#[trigger] fit_ranked@[r]@[a])
                < membership@.len(),
        membership@.len() < u32::MAX,
        categories@.len() >= membership@.len(),
        post_counts@.len() >= membership@.len(),
    ensures
        out@.len() == fits@.len(),
        exists|lists: Seq<Seq<u32>>|
            #[trigger] families(lists, membership@, categories@, post_counts@, fits@.len() as int)
                && out@.map_values(|v: Vec<u32>| v@) == naming(
                order@,
                fits@,
                fit_ranked@.map_values(|v: Vec<u32>| v@),
                lists,
                take as int,
                order@.len(),
            ).0,
{
    let k = fits.len();
    let n = membership.len();
    let lists = family_lists(membership, post_counts, categories, k);
    let ghost views = lists@.map_values(|v: Vec<u32>| v@);
    let ghost ranks = fit_ranked@.map_values(|v: Vec<u32>| v@);
    assert(families(views, membership@, categories@, post_counts@, k as int));
    let mut used: Vec<bool> = Vec::new();
    let mut x: usize = 0;
    while x < n
        invariant
            x <= n,
            used@.len() == x,
            forall|y: int| 0 <= y < x ==> !(#[trigger] used@[y]),
        decreases n - x,
    {
        used.push(false);
        x = x + 1;
    }
    assert(marked(used@) =~= Set::<u32>::empty());
    let mut out: Vec<Vec<u32>> = Vec::new();
    let mut r: usize = 0;
    while r < k
        invariant
            r <= k,
            out@.len() == r,
            forall|s: int| 0 <= s < r ==> (#[trigger] out@[s])@ == Seq::<u32>::empty(),
        decreases k - r,
    {
        out.push(Vec::new());
        r = r + 1;
    }
    assert(out@.map_values(|v: Vec<u32>| v@) =~= naming(order@, fits@, ranks, views, take as int, 0).0);
    let mut p: usize = 0;
    while p < order.len()
        invariant
            p <= order@.len(),
            k == fits@.len(),
            n == membership@.len(),
            fit_ranked@.len() == k,
            lists@.len() == k,
            views == lists@.map_values(|v: Vec<u32>| v@),
            ranks == fit_ranked@.map_values(|v: Vec<u32>| v@),
            forall|q: int| 0 <= q < order@.len() ==> (#[trigger] order@[q]) < k,
            forall|s: int, a: int|
                0 <= s < k && 0 <= a < fit_ranked@[s]@.len() ==> (#[trigger] fit_ranked@[s]@[a]) < n,
            forall|s: int, a: int| 0 <= s < k && 0 <= a < lists@[s]@.len() ==> (#[trigger] lists@[s]@[a]) < n,
            used@.len() == n,
            out@.len() == k,
            out@.map_values(|v: Vec<u32>| v@) == naming(order@, fits@, ranks, views, take as int, p as nat).0,
            marked(used@) == naming(order@, fits@, ranks, views, take as int, p as nat).1,
        decreases order@.len() - p,
    {
        let r = order[p] as usize;
        let ghost before = naming(order@, fits@, ranks, views, take as int, p as nat);
        let ranked: &Vec<u32> = if fits[r] {
            &fit_ranked[r]
        } else {
            &lists[r]
        };
        let got = pick_names(ranked, &lists[r], &used, take);
        proof {
            assert(ranked@ == if fits@[r as int] {
                ranks[r as int]
            } else {
                views[r as int]
            });
            assert(lists@[r as int]@ == views[r as int]);
        }
        let ghost first_taken = got@.len() > 0;
        if got.len() > 0 {
            let f = got[0];
            proof {
                lemma_unused_members(ranked@, before.1);
                lemma_unused_members(lists@[r as int]@, before.1);
                let fresh = unused(ranked@, before.1);
                let members = unused(lists@[r as int]@, before.1);
                if fresh.len() > 0 {
                    assert(ranked@.contains(fresh[0]));
                } else if members.len() > 0 {
                    assert(lists@[r as int]@.contains(members[0]));
                } else {
                    assert(ranked@[0] == got@[0]);
                }
            }
            used.set(f as usize, true);
        }
        let ghost old_out = out@;
        out.set(r, got);
        p = p + 1;
        proof {
            let after = naming(order@, fits@, ranks, views, take as int, p as nat);
            assert(out@.map_values(|v: Vec<u32>| v@) =~= after.0) by {
                assert(old_out.map_values(|v: Vec<u32>| v@) == before.0);
            }
            assert(marked(used@) =~= after.1);
        }
    }
    assert(families(views, membership@, categories@, post_counts@, k as int));
    out
}

proof fn lemma_unused_untaken(list: Seq<u32>, used: Set<u32>)
    ensures
        forall|a: int| 0 <= a < unused(list, used).len() ==> !used.contains(#[trigger] unused(list, used)[a]),
    decreases list.len(),
{
    if list.len() > 0 {
        lemma_unused_untaken(list.drop_last(), used);
        let rest = unused(list.drop_last(), used);
        assert forall|a: int| 0 <= a < unused(list, used).len() implies !used.contains(
            #[trigger] unused(list, used)[a],
        ) by {
            if a < rest.len() {
                assert(unused(list, used)[a] == rest[a]);
            }
        }
    }
}

/// A taken name falls through: a region whose candidates or family hold a
/// node that no region named before it took as its first name gets such a
/// node as its own first name.
pub proof fn lemma_taken_names_fall_through(
    order: Seq<u32>,
    fits: Seq<bool>,
    fit_ranked: Seq<Seq<u32>>,
    lists: Seq<Seq<u32>>,
    take: int,
    p: nat,
)
    requires
        p < order.len(),
        take > 0,
        forall|q: int| 0 <= q <= p ==> #[trigger] order[q] < fits.len(),
        fits.len() == fit_ranked.len(),
        fits.len() == lists.len(),
    ensures
        ({
            let used = naming(order, fits, fit_ranked, lists, take, p).1;
            let r = order[p as int] as int;
            let ranked = if fits[r] {
                fit_ranked[r]
            } else {
                lists[r]
            };
            let got = naming(order, fits, fit_ranked, lists, take, p + 1).0[r];
            unused(ranked, used).len() > 0 || unused(lists[r], used).len() > 0 ==> got.len() > 0
                && !used.contains(got[0])
        }),
{
    let used = naming(order, fits, fit_ranked, lists, take, p).1;
    let r = order[p as int] as int;
    let ranked = if fits[r] {
        fit_ranked[r]
    } else {
        lists[r]
    };
    lemma_unused_untaken(ranked, used);
    lemma_unused_untaken(lists[r], used);
    lemma_naming_len(order, fits, fit_ranked, lists, take, p);
    assert(((p + 1) as nat - 1) as nat == p);
}

proof fn lemma_naming_len(
    order: Seq<u32>,
    fits: Seq<bool>,
    fit_ranked: Seq<Seq<u32>>,
    lists: Seq<Seq<u32>>,
    take: int,
    p: nat,
)
    requires
        forall|q: int| 0 <= q < p ==> order[q] < lists.len(),
    ensures
        naming(order, fits, fit_ranked, lists, take, p).0.len() == lists.len(),
    decreases p,
{
    if p > 0 {
        lemma_naming_len(order, fits, fit_ranked, lists, take, (p - 1) as nat);
    }
}

/// The names the region at step `q` of `order` got.
pub open spec fn step_names(
    order: Seq<u32>,
    fits: Seq<bool>,
    fit_ranked: Seq<Seq<u32>>,
    lists: Seq<Seq<u32>>,
    take: int,
    q: int,
) -> Seq<u32> {
    naming(order, fits, fit_ranked, lists, take, (q + 1) as nat).0[order[q] as int]
}

/// The first names that the regions named in the first `p` steps got.
pub open spec fn first_names(
    order: Seq<u32>,
    fits: Seq<bool>,
    fit_ranked: Seq<Seq<u32>>,
    lists: Seq<Seq<u32>>,
    take: int,
    p: int,
) -> Set<u32> {
    Set::new(
        |x: u32|
            exists|q: int|
                0 <= q < p && #[trigger] step_names(order, fits, fit_ranked, lists, take, q).len() > 0
                    && step_names(order, fits, fit_ranked, lists, take, q)[0] == x,
    )
}

proof fn lemma_taken_are_first_names(
    order: Seq<u32>,
    fits: Seq<bool>,
    fit_ranked: Seq<Seq<u32>>,
    lists: Seq<Seq<u32>>,
    take: int,
    p: nat,
)
    requires
        p <= order.len(),
        forall|q: int| 0 <= q < order.len() ==> #[trigger] order[q] < lists.len(),
    ensures
        naming(order, fits, fit_ranked, lists, take, p).1 == first_names(order, fits, fit_ranked, lists, take, p as int),
    decreases p,
{
    if p == 0 {
        assert(first_names(order, fits, fit_ranked, lists, take, 0) =~= Set::<u32>::empty());
    } else {
        let q = (p - 1) as nat;
        lemma_taken_are_first_names(order, fits, fit_ranked, lists, take, q);
        lemma_naming_len(order, fits, fit_ranked, lists, take, q);
        let before = first_names(order, fits, fit_ranked, lists, take, q as int);
        let after = first_names(order, fits, fit_ranked, lists, take, p as int);
        let got = step_names(order, fits, fit_ranked, lists, take, q as int);
        assert(((q + 1) as nat) == p);
        let (out, used) = naming(order, fits, fit_ranked, lists, take, q);
        let r = order[q as int] as int;
        let ranked = if fits[r] {
            fit_ranked[r]
        } else {
            lists[r]
        };
        assert(got == pick(ranked, lists[r], used, take));
        if got.len() > 0 {
            assert(after =~= before.insert(got[0])) by {
                assert forall|x: u32| after.contains(x) implies before.insert(got[0]).contains(x) by {
                    let w = choose|w: int|
                        0 <= w < p && #[trigger] step_names(order, fits, fit_ranked, lists, take, w).len() > 0
                            && step_names(order, fits, fit_ranked, lists, take, w)[0] == x;
                    if w < q {
                        assert(before.contains(x));
                    }
                }
                assert forall|x: u32| before.insert(got[0]).contains(x) implies after.contains(x) by {
                    if x == got[0] {
                        assert(step_names(order, fits, fit_ranked, lists, take, q as int).len() > 0);
                    } else {
                        let w = choose|w: int|
                            0 <= w < q && #[trigger] step_names(order, fits, fit_ranked, lists, take, w).len() > 0
                                && step_names(order, fits, fit_ranked, lists, take, w)[0] == x;
                        assert(step_names(order, fits, fit_ranked, lists, take, w).len() > 0);
                    }
                }
            }
        } else {
            assert(after =~= before) by {
                assert forall|x: u32| after.contains(x) implies before.contains(x) by {
                    let w = choose|w: int|
                        0 <= w < p && #[trigger] step_names(order, fits, fit_ranked, lists, take, w).len() > 0
                            && step_names(order, fits, fit_ranked, lists, take, w)[0] == x;
                    assert(w != q);
                }
                assert forall|x: u32| before.contains(x) implies after.contains(x) by {
                    let w = choose|w: int|
                        0 <= w < q && #[trigger] step_names(order, fits, fit_ranked, lists, take, w).len() > 0
                            && step_names(order, fits, fit_ranked, lists, take, w)[0] == x;
                    assert(step_names(order, fits, fit_ranked, lists, take, w).len() > 0);
                }
            }
        }
    }
}

/// Each region is named against exactly the first names that the regions
/// named before it got: a name that an earlier region got only as its second
/// or later name is still offered to it.
pub proof fn lemma_only_first_names_are_taken(
    order: Seq<u32>,
    fits: Seq<bool>,
    fit_ranked: Seq<Seq<u32>>,
    lists: Seq<Seq<u32>>,
    take: int,
    p: int,
)
    requires
        0 <= p < order.len(),
        forall|q: int| 0 <= q < order.len() ==> #[trigger] order[q] < lists.len(),
    ensures
        ({
            let r = order[p] as int;
            let ranked = if fits[r] {
                fit_ranked[r]
            } else {
                lists[r]
            };
            step_names(order, fits, fit_ranked, lists, take, p) == pick(
                ranked,
                lists[r],
                first_names(order, fits, fit_ranked, lists, take, p),
                take,
            )
        }),
{
    lemma_taken_are_first_names(order, fits, fit_ranked, lists, take, p as nat);
    lemma_naming_len(order, fits, fit_ranked, lists, take, p as nat);
    assert((((p + 1) as nat) - 1) as nat == p as nat);
}

} // verus!
