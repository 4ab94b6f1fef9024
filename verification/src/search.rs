use vstd::prelude::*;

use crate::sorting::{bytes_lt, named_le, sort_named};
use crate::tags::Tags;
use crate::text::push_char;
use vstd::utf8::encode_utf8;

verus! {

/// A character kept in a shard key as it is: an ASCII lowercase letter or digit.
pub open spec fn key_safe(c: char) -> bool {
    ('a' <= c && c <= 'z') || ('0' <= c && c <= '9')
}

/// The shard key character that stands for `c`.
pub open spec fn key_char(c: char) -> char {
    if key_safe(c) {
        c
    } else {
        '_'
    }
}

/// Character `i` of a name, padded with `_`.
pub open spec fn padded(s: Seq<char>, i: int) -> char {
    if i < s.len() {
        s[i]
    } else {
        '_'
    }
}

/// The shard a name is filed under: its first two characters, padded with `_`,
/// each one that is not an ASCII lowercase letter or digit replaced by `_`.
pub open spec fn shard_key_of(s: Seq<char>) -> Seq<char> {
    seq![key_char(padded(s, 0)), key_char(padded(s, 1))]
}

fn safe_or_blank(c: char) -> (k: char)
    ensures
        k == key_char(c),
{
    if ('a' <= c && c <= 'z') || ('0' <= c && c <= '9') {
        c
    } else {
        '_'
    }
}

/// The shard a tag name is filed under: two characters that are safe in a
/// file name.
pub fn shard_key(name: &str) -> (key: String)
    ensures
        key@ == shard_key_of(name@),
{
    let mut key = String::new();
    let mut n: usize = 0;
    for ch in it: name.chars()
        invariant
            it.seq() == name@,
            n == if it.index() < 2 {
                it.index()
            } else {
                2
            },
            key@ == Seq::new(n as nat, |i: int| key_char(name@[i])),
    {
        if n < 2 {
            push_char(&mut key, safe_or_blank(ch));
            n = n + 1;
            assert(key@ =~= Seq::new(n as nat, |i: int| key_char(name@[i])));
        }
    }
    assert(key@ =~= Seq::new(n as nat, |i: int| key_char(padded(name@, i))));
    while n < 2
        invariant
            n <= 2,
            n < 2 ==> n >= name@.len(),
            key@ == Seq::new(n as nat, |i: int| key_char(padded(name@, i))),
        decreases 2 - n,
    {
        push_char(&mut key, '_');
        n = n + 1;
        assert(key@ =~= Seq::new(n as nat, |i: int| key_char(padded(name@, i))));
    }
    assert(key@ =~= shard_key_of(name@));
    key
}

/// Every shard key is two characters, each an ASCII lowercase letter, a digit
/// or `_`, so it is safe in a file name.
pub proof fn lemma_shard_keys_are_safe(name: Seq<char>)
    ensures
        shard_key_of(name).len() == 2,
        forall|i: int| 0 <= i < 2 ==> key_safe(#[trigger] shard_key_of(name)[i]) || shard_key_of(name)[i] == '_',
{
}

/// Two names that start with the same two characters share a shard.
pub proof fn lemma_shared_prefix_shares_shard(a: Seq<char>, b: Seq<char>)
    requires
        a.len() >= 2,
        b.len() >= 2,
        a[0] == b[0],
        a[1] == b[1],
    ensures
        shard_key_of(a) == shard_key_of(b),
{
}

/// One row of the search index: a tag, or an alias that points at one.
pub struct Entry {
    pub name: String,
    pub post_count: u32,
    pub category: u8,
    /// The node this row points at, or -1 for a tag that never became one.
    pub node: i32,
    pub tail: Vec<u32>,
    /// Set only on an alias row, naming the tag it redirects to.
    pub alias: Option<String>,
}

/// The values of `s` other than `u32::MAX`, in order.
pub open spec fn present(s: Seq<u32>) -> Seq<u32>
    decreases s.len(),
{
    if s.len() == 0 {
        seq![]
    } else if s.last() == u32::MAX {
        present(s.drop_last())
    } else {
        present(s.drop_last()).push(s.last())
    }
}

/// The nodes listed as near tag `idx`: for a tail tag its `tail_k` slots of
/// `tail_neighbors` without the empty ones, for any other tag none.
pub open spec fn near_nodes(n_nodes: int, n_tail: int, tail_neighbors: Seq<u32>, tail_k: int, idx: int) -> Seq<u32> {
    if idx < n_nodes || idx >= n_nodes + n_tail {
        seq![]
    } else {
        present(tail_neighbors.subrange((idx - n_nodes) * tail_k, (idx - n_nodes + 1) * tail_k))
    }
}

/// The node a row points at: the tag itself if it is a node, else -1.
pub open spec fn node_of(n_nodes: int, idx: int) -> i32 {
    if idx < n_nodes {
        idx as i32
    } else {
        -1i32
    }
}

/// The table has a post count and a category for each name, and a full run of
/// neighbour slots for each tail tag.
pub open spec fn index_ready(tags: &Tags, tail_neighbors: Seq<u32>, tail_k: int) -> bool {
    &&& tags.post_counts@.len() >= tags.names@.len()
    &&& tags.categories@.len() >= tags.names@.len()
    &&& tags.n_tail > 0 ==> (tags.n_tail as int) * tail_k <= tail_neighbors.len()
}

proof fn lemma_tail_slots(n_tail: int, tail_k: int, x: int)
    requires
        0 <= x < n_tail,
        0 <= tail_k,
    ensures
        0 <= x * tail_k,
        x * tail_k + tail_k == (x + 1) * tail_k,
        (x + 1) * tail_k <= n_tail * tail_k,
{
    assert(0 <= x * tail_k) by (nonlinear_arith)
        requires
            0 <= x,
            0 <= tail_k,
    ;
    assert(x * tail_k + tail_k == (x + 1) * tail_k) by (nonlinear_arith);
    assert((x + 1) * tail_k <= n_tail * tail_k) by (nonlinear_arith)
        requires
            x + 1 <= n_tail,
            0 <= tail_k,
    ;
}

fn near(tags: &Tags, tail_neighbors: &[u32], tail_k: usize, idx: usize) -> (out: Vec<u32>)
    requires
        index_ready(tags, tail_neighbors@, tail_k as int),
    ensures
        out@ == near_nodes(tags.n_nodes as int, tags.n_tail as int, tail_neighbors@, tail_k as int, idx as int),
{
    let mut out: Vec<u32> = Vec::new();
    if idx < tags.n_nodes || idx - tags.n_nodes >= tags.n_tail {
        return out;
    }
    let x = idx - tags.n_nodes;
    let tl = tail_neighbors.len();
    proof {
        lemma_tail_slots(tags.n_tail as int, tail_k as int, x as int);
        assert((x + 1) * tail_k <= tl);
    }
    let lo = x * tail_k;
    let hi = lo + tail_k;
    let ghost run = tail_neighbors@.subrange(lo as int, hi as int);
    let mut j: usize = lo;
    while j < hi
        invariant
            lo <= j <= hi <= tail_neighbors@.len(),
            run == tail_neighbors@.subrange(lo as int, hi as int),
            out@ == present(tail_neighbors@.subrange(lo as int, j as int)),
        decreases hi - j,
    {
        let v = tail_neighbors[j];
        let ghost pre = tail_neighbors@.subrange(lo as int, j as int);
        assert(tail_neighbors@.subrange(lo as int, j + 1).drop_last() =~= pre);
        assert(tail_neighbors@.subrange(lo as int, j + 1).last() == v);
        if v != u32::MAX {
            out.push(v);
        }
        j = j + 1;
    }
    out
}

fn copy_string(s: &String) -> (out: String)
    ensures
        out@ == s@,
{
    s.clone()
}

/// The rows of the search index with the shard each is filed under: one per
/// tag, in table order, then one per alias, in the order given, each carrying
/// its target's count, category, node and near nodes and the target's name.
pub fn entries(tags: &Tags, aliases: &[(String, u32)], tail_neighbors: &[u32], tail_k: usize) -> (out: Vec<(String, Entry)>)
    requires
        index_ready(tags, tail_neighbors@, tail_k as int),
        forall|i: int| 0 <= i < aliases@.len() ==> (#[trigger] aliases@[i]).1 < tags.names@.len(),
    ensures
        out@.len() == tags.names@.len() + aliases@.len(),
        forall|i: int|
            0 <= i < tags.names@.len() ==> {
                let (key, e) = #[trigger] out@[i];
                &&& key@ == shard_key_of(tags.names@[i]@)
                &&& e.name@ == tags.names@[i]@
                &&& e.post_count == tags.post_counts@[i]
                &&& e.category == tags.categories@[i]
                &&& e.node == node_of(tags.n_nodes as int, i)
                &&& e.tail@ == near_nodes(tags.n_nodes as int, tags.n_tail as int, tail_neighbors@, tail_k as int, i)
                &&& e.alias is None
            },
        forall|a: int|
            0 <= a < aliases@.len() ==> {
                let (key, e) = #[trigger] out@[tags.names@.len() + a];
                let t = aliases@[a].1 as int;
                &&& key@ == shard_key_of(aliases@[a].0@)
                &&& e.name@ == aliases@[a].0@
                &&& e.post_count == tags.post_counts@[t]
                &&& e.category == tags.categories@[t]
                &&& e.node == node_of(tags.n_nodes as int, t)
                &&& e.tail@ == near_nodes(tags.n_nodes as int, tags.n_tail as int, tail_neighbors@, tail_k as int, t)
                &&& e.alias matches Some(n) && n@ == tags.names@[t]@
            },
{
    let mut out: Vec<(String, Entry)> = Vec::new();
    let n = tags.names.len();
    let mut i: usize = 0;
    while i < n
        invariant
            i <= n == tags.names@.len(),
            index_ready(tags, tail_neighbors@, tail_k as int),
            out@.len() == i,
            forall|j: int|
                0 <= j < i ==> {
                    let (key, e) = #[trigger] out@[j];
                    &&& key@ == shard_key_of(tags.names@[j]@)
                    &&& e.name@ == tags.names@[j]@
                    &&& e.post_count == tags.post_counts@[j]
                    &&& e.category == tags.categories@[j]
                    &&& e.node == node_of(tags.n_nodes as int, j)
                    &&& e.tail@ == near_nodes(tags.n_nodes as int, tags.n_tail as int, tail_neighbors@, tail_k as int, j)
                    &&& e.alias is None
                },
        decreases n - i,
    {
        let name = &tags.names[i];
        let key = shard_key(name.as_str());
        let node: i32 = if i < tags.n_nodes {
            i as i32
        } else {
            -1
        };
        let e = Entry {
            name: copy_string(name),
            post_count: tags.post_counts[i],
            category: tags.categories[i],
            node,
            tail: near(tags, tail_neighbors, tail_k, i),
            alias: None,
        };
        out.push((key, e));
        i = i + 1;
    }
    let mut a: usize = 0;
    while a < aliases.len()
        invariant
            a <= aliases@.len(),
            n == tags.names@.len(),
            index_ready(tags, tail_neighbors@, tail_k as int),
            forall|i: int| 0 <= i < aliases@.len() ==> (#[trigger] aliases@[i]).1 < tags.names@.len(),
            out@.len() == n + a,
            forall|j: int|
                0 <= j < n ==> {
                    let (key, e) = #[trigger] out@[j];
                    &&& key@ == shard_key_of(tags.names@[j]@)
                    &&& e.name@ == tags.names@[j]@
                    &&& e.post_count == tags.post_counts@[j]
                    &&& e.category == tags.categories@[j]
                    &&& e.node == node_of(tags.n_nodes as int, j)
                    &&& e.tail@ == near_nodes(tags.n_nodes as int, tags.n_tail as int, tail_neighbors@, tail_k as int, j)
                    &&& e.alias is None
                },
            forall|b: int|
                0 <= b < a ==> {
                    let (key, e) = #[trigger] out@[n + b];
                    let t = aliases@[b].1 as int;
                    &&& key@ == shard_key_of(aliases@[b].0@)
                    &&& e.name@ == aliases@[b].0@
                    &&& e.post_count == tags.post_counts@[t]
                    &&& e.category == tags.categories@[t]
                    &&& e.node == node_of(tags.n_nodes as int, t)
                    &&& e.tail@ == near_nodes(tags.n_nodes as int, tags.n_tail as int, tail_neighbors@, tail_k as int, t)
                    &&& e.alias matches Some(nm) && nm@ == tags.names@[t]@
                },
        decreases aliases@.len() - a,
    {
        let from = &aliases[a].0;
        let t = aliases[a].1 as usize;
        let key = shard_key(from.as_str());
        let node: i32 = if t < tags.n_nodes {
            t as i32
        } else {
            -1
        };
        let e = Entry {
            name: copy_string(from),
            post_count: tags.post_counts[t],
            category: tags.categories[t],
            node,
            tail: near(tags, tail_neighbors, tail_k, t),
            alias: Some(copy_string(&tags.names[t])),
        };
        out.push((key, e));
        assert(out@[n + a] == (key, e));
        a = a + 1;
    }
    out
}

/// Row `a` comes before row `b` within a shard: a name first in byte order,
/// or the same name and more posts.
pub open spec fn row_before(a: Entry, b: Entry) -> bool {
    bytes_lt(encode_utf8(a.name@), encode_utf8(b.name@)) || (a.name@ == b.name@ && a.post_count
        > b.post_count)
}

/// `out` holds the rows of `rows`, each once: `out[k]` is `rows[from[k]]`,
/// and rows of the same name and count keep the order they had.
pub open spec fn rows_moved(out: Seq<(String, Entry)>, rows: Seq<(String, Entry)>, from: Seq<int>) -> bool {
    &&& from.len() == out.len()
    &&& forall|k: int| 0 <= k < from.len() ==> 0 <= #[trigger] from[k] < rows.len()
    &&& forall|k: int| 0 <= k < from.len() ==> out[k] == rows[#[trigger] from[k]]
    &&& forall|a: int, b: int| 0 <= a < b < from.len() ==> #[trigger] from[a] != #[trigger] from[b]
    &&& forall|a: int, b: int|
        0 <= a < b < from.len() && out[a].1.name@ == out[b].1.name@ && out[a].1.post_count
            == out[b].1.post_count ==> #[trigger] from[a] < #[trigger] from[b]
}

proof fn lemma_bytes_lt_asym(a: Seq<u8>, b: Seq<u8>)
    ensures
        !(bytes_lt(a, b) && bytes_lt(b, a)),
    decreases a.len(),
{
    if a.len() > 0 && b.len() > 0 && a[0] == b[0] {
        lemma_bytes_lt_asym(a.drop_first(), b.drop_first());
    }
}

proof fn lemma_bytes_lt_irreflexive(a: Seq<u8>)
    ensures
        !bytes_lt(a, a),
    decreases a.len(),
{
    if a.len() > 0 {
        lemma_bytes_lt_irreflexive(a.drop_first());
    }
}

proof fn lemma_spot_order(c1: u32, j1: int, c2: u32, j2: int)
    by (nonlinear_arith)
    requires
        0 <= j1 < 0x1_0000_0000,
        0 <= j2 < 0x1_0000_0000,
        (u32::MAX - c1) * 0x1_0000_0000 + j1 <= (u32::MAX - c2) * 0x1_0000_0000 + j2,
    ensures
        c1 >= c2,
        c1 == c2 ==> j1 <= j2,
{
}

/// The rows in the order a shard lists them: by name, then by post count,
/// most first, and rows alike in both in the order they came.
pub fn by_name(rows: Vec<(String, Entry)>) -> (out: Vec<(String, Entry)>)
    requires
        rows@.len() <= u32::MAX,
    ensures
        out@.len() == rows@.len(),
        forall|a: int, b: int| 0 <= a < b < out@.len() ==> !row_before(#[trigger] out@[b].1, #[trigger] out@[a].1),
        exists|from: Seq<int>| #[trigger] rows_moved(out@, rows@, from),
{
    broadcast use vstd::seq_lib::group_to_multiset_ensures;

    let n = rows.len();
    let ghost input = rows@;
    let mut keyed: Vec<(u64, String, u64)> = Vec::new();
    let mut slots: Vec<Option<(String, Entry)>> = Vec::new();
    for row in it: rows.into_iter()
        invariant
            it.seq() == input,
            n == input.len(),
            n <= u32::MAX,
            keyed@.len() == it.index(),
            slots@.len() == it.index(),
            forall|j: int|
                0 <= j < keyed@.len() ==> #[trigger] keyed@[j] == (
                    0u64,
                    input[j].1.name,
                    (((u32::MAX - input[j].1.post_count) as u64) * 0x1_0000_0000 + j) as u64,
                ),
            forall|j: int| 0 <= j < slots@.len() ==> #[trigger] slots@[j] == Some(input[j]),
    {
        let j = slots.len();
        let spot = (u32::MAX - row.1.post_count) as u64 * 0x1_0000_0000u64 + j as u64;
        keyed.push((0, row.1.name.clone(), spot));
        slots.push(Some(row));
    }
    let ghost before = keyed@;
    assert(before.no_duplicates()) by {
        assert forall|a: int, b: int|
            0 <= a < before.len() && 0 <= b < before.len() && a != b implies before[a] != before[b] by {
            assert(before[a].2 % 0x1_0000_0000 == a) by (nonlinear_arith)
                requires
                    before[a].2 == (u32::MAX - input[a].1.post_count) * 0x1_0000_0000 + a,
                    0 <= a < 0x1_0000_0000,
            ;
            assert(before[b].2 % 0x1_0000_0000 == b) by (nonlinear_arith)
                requires
                    before[b].2 == (u32::MAX - input[b].1.post_count) * 0x1_0000_0000 + b,
                    0 <= b < 0x1_0000_0000,
            ;
        }
    }
    proof {
        before.lemma_multiset_has_no_duplicates();
    }
    sort_named(&mut keyed);
    let ghost after = keyed@;
    assert(after.len() == before.len()) by {
        assert(after.to_multiset().len() == before.to_multiset().len());
    }
    assert forall|q: int| 0 <= q < after.len() implies before.contains(#[trigger] after[q]) by {
        assert(after.contains(after[q]));
        assert(after.to_multiset().count(after[q]) > 0);
    }
    proof {
        after.lemma_multiset_has_no_duplicates_conv();
    }
    let mut out: Vec<(String, Entry)> = Vec::new();
    let ghost mut from: Seq<int> = seq![];
    let mut q: usize = 0;
    while q < n
        invariant
            q <= n,
            n == input.len(),
            n <= u32::MAX,
            keyed@ == after,
            after.len() == n,
            before.len() == n,
            after.no_duplicates(),
            forall|j: int|
                0 <= j < n ==> #[trigger] before[j] == (
                    0u64,
                    input[j].1.name,
                    (((u32::MAX - input[j].1.post_count) as u64) * 0x1_0000_0000 + j) as u64,
                ),
            forall|x: int| 0 <= x < after.len() ==> before.contains(#[trigger] after[x]),
            slots@.len() == n,
            forall|j: int|
                0 <= j < n ==> (#[trigger] slots@[j] == Some(input[j]) || slots@[j] is None),
            forall|x: int| q <= x < n ==> #[trigger] slots@[(after[x].2 % 0x1_0000_0000) as int] == Some(input[(after[x].2 % 0x1_0000_0000) as int]),
            out@.len() == q,
            from.len() == q,
            forall|x: int| 0 <= x < q ==> #[trigger] from[x] == (after[x].2 % 0x1_0000_0000) as int && 0 <= from[x] < n,
            forall|x: int| 0 <= x < q ==> out@[x] == input[#[trigger] from[x]],
            forall|x: int| 0 <= x < n ==> (#[trigger] after[x].2 % 0x1_0000_0000) < n,
        decreases n - q,
    {
        let at = (keyed[q].2 % 0x1_0000_0000u64) as usize;
        let ghost prev = slots@;
        let taken = slots[at].take();
        match taken {
            Some(row) => {
                out.push(row);
            },
            None => {
                assert(false);
            },
        }
        proof {
            from = from.push(at as int);
            assert forall|x: int| q + 1 <= x < n implies #[trigger] slots@[(after[x].2 % 0x1_0000_0000) as int] == Some(input[(after[x].2 % 0x1_0000_0000) as int]) by {
                let jx = choose|j: int| 0 <= j < before.len() && before[j] == after[x];
                let jq = choose|j: int| 0 <= j < before.len() && before[j] == after[q as int];
                assert(after[x] != after[q as int]);
                assert(after[x].2 % 0x1_0000_0000 == jx) by (nonlinear_arith)
                    requires
                        after[x].2 == (u32::MAX - input[jx].1.post_count) * 0x1_0000_0000 + jx,
                        0 <= jx < 0x1_0000_0000,
                ;
                assert(after[q as int].2 % 0x1_0000_0000 == jq) by (nonlinear_arith)
                    requires
                        after[q as int].2 == (u32::MAX - input[jq].1.post_count) * 0x1_0000_0000 + jq,
                        0 <= jq < 0x1_0000_0000,
                ;
            }
        }
        q = q + 1;
    }
    proof {
        assert forall|x: int| 0 <= x < n implies #[trigger] before[from[x]] == after[x] by {
            let jx = choose|j: int| 0 <= j < before.len() && before[j] == after[x];
            assert(after[x].2 % 0x1_0000_0000 == jx) by (nonlinear_arith)
                requires
                    after[x].2 == (u32::MAX - input[jx].1.post_count) * 0x1_0000_0000 + jx,
                    0 <= jx < 0x1_0000_0000,
            ;
        }
        assert forall|a: int, b: int| 0 <= a < b < n implies #[trigger] from[a] != #[trigger] from[b] by {
            assert(before[from[a]] == after[a]);
            assert(before[from[b]] == after[b]);
        }
        assert forall|a: int, b: int| 0 <= a < b < n implies {
            &&& !row_before(#[trigger] out@[b].1, #[trigger] out@[a].1)
            &&& (out@[a].1.name@ == out@[b].1.name@ && out@[a].1.post_count == out@[b].1.post_count
                ==> from[a] < from[b])
        } by {
            assert(named_le(after[a], after[b]));
            let (ja, jb) = (from[a], from[b]);
            assert(before[ja] == after[a] && before[jb] == after[b]);
            assert(out@[a] == input[ja] && out@[b] == input[jb]);
            let xa = encode_utf8(out@[a].1.name@);
            let xb = encode_utf8(out@[b].1.name@);
            lemma_bytes_lt_asym(xa, xb);
            lemma_bytes_lt_irreflexive(xa);
            if xa == xb {
                vstd::utf8::encode_utf8_decode_utf8(out@[a].1.name@);
                vstd::utf8::encode_utf8_decode_utf8(out@[b].1.name@);
                lemma_spot_order(out@[a].1.post_count, ja, out@[b].1.post_count, jb);
            }
            if out@[a].1.name@ == out@[b].1.name@ {
                assert(xa == xb);
            }
        }
        assert(rows_moved(out@, input, from));
    }
    out
}

} // verus!
